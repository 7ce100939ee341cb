//! Accounts, devices and access tokens.

use crate::error::{Error, ErrorKind};
use crate::tree::{bumped, keys_of, listing, remove_all, rows_of, with_prefix, Tree};
use crate::utils::{
    after_first_field, after_first_field_of, append, calculate_hash, first_field, first_field_of,
    incremented, is_hash_of, last_field, last_field_of, string_from_bytes, to_vec, SEPARATOR,
};
use vstd::prelude::*;
use vstd::utf8::*;

verus! {

/// The tables of accounts and devices.
pub struct Users {
    /// UserId -> the encoded hash of the password; empty for an account
    /// without a password, which cannot log in.
    pub userid_password: Tree,
    /// UserId + DeviceId -> the device's access token
    pub userdeviceid_token: Tree,
    /// UserId + DeviceId -> what is known of the device
    pub userdeviceid_metadata: Tree,
    /// UserId -> a counter that grows whenever the user's devices change
    pub userid_devicelistversion: Tree,
    /// Access token -> UserId + DeviceId
    pub token_userdeviceid: Tree,
    /// UserId + DeviceId + Count -> an event waiting for the device
    pub todeviceid_events: Tree,
}

/// `stored` is a hash of `password` under some fresh salt, and not empty.
pub open spec fn holds_hash_of(stored: Seq<u8>, password: Seq<char>) -> bool {
    exists|hash: Seq<char>|
        #![trigger is_hash_of(hash, password)]
        is_hash_of(hash, password) && hash.len() > 0 && stored == encode_utf8(hash)
}

/// The tables that say when a user's keys changed.
pub struct UserKeys {
    /// RoomId or UserId + Count -> the user whose keys changed
    pub keychangeid_userid: Tree,
    /// UserId -> the count of the last change of one-time keys
    pub userid_lastonetimekeyupdate: Tree,
}

impl UserKeys {
    pub open spec fn wf(&self) -> bool {
        self.keychangeid_userid.wf() && self.userid_lastonetimekeyupdate.wf()
    }
}

/// The key of a device: the user's id, a separator, the device's id.
pub open spec fn device_key(user_id: Seq<char>, device_id: Seq<char>) -> Seq<u8> {
    encode_utf8(user_id).push(SEPARATOR) + encode_utf8(device_id)
}

/// The beginning of the keys of a user's devices.
pub open spec fn user_prefix(user_id: Seq<char>) -> Seq<u8> {
    encode_utf8(user_id).push(SEPARATOR)
}

/// Token uniqueness: every access token leads to a device that holds
/// exactly that token.
pub open spec fn tokens_consistent(
    token_userdeviceid: Map<Seq<u8>, Seq<u8>>,
    userdeviceid_token: Map<Seq<u8>, Seq<u8>>,
) -> bool {
    forall|token: Seq<u8>| #[trigger]
        token_userdeviceid.contains_key(token) ==> userdeviceid_token.contains_key(
            token_userdeviceid[token],
        ) && userdeviceid_token[token_userdeviceid[token]] == token
}

/// The tokens after `token` was given to the device with the key `device`:
/// the device's old token leads nowhere, and the new one to the device.
pub open spec fn token_set(
    token_userdeviceid: Map<Seq<u8>, Seq<u8>>,
    userdeviceid_token: Map<Seq<u8>, Seq<u8>>,
    device: Seq<u8>,
    token: Seq<u8>,
) -> (Map<Seq<u8>, Seq<u8>>, Map<Seq<u8>, Seq<u8>>) {
    let cleared = if userdeviceid_token.contains_key(device) {
        token_userdeviceid.remove(userdeviceid_token[device])
    } else {
        token_userdeviceid
    };
    (cleared.insert(token, device), userdeviceid_token.insert(device, token))
}

/// The tokens after the device with the key `device` was removed.
pub open spec fn token_dropped(
    token_userdeviceid: Map<Seq<u8>, Seq<u8>>,
    userdeviceid_token: Map<Seq<u8>, Seq<u8>>,
    device: Seq<u8>,
) -> (Map<Seq<u8>, Seq<u8>>, Map<Seq<u8>, Seq<u8>>) {
    if userdeviceid_token.contains_key(device) {
        (token_userdeviceid.remove(userdeviceid_token[device]), userdeviceid_token.remove(device))
    } else {
        (token_userdeviceid, userdeviceid_token)
    }
}

/// The tokens after the user's devices with the given ids were removed.
pub open spec fn tokens_dropped(
    token_userdeviceid: Map<Seq<u8>, Seq<u8>>,
    userdeviceid_token: Map<Seq<u8>, Seq<u8>>,
    user_id: Seq<char>,
    device_ids: Seq<Seq<char>>,
) -> (Map<Seq<u8>, Seq<u8>>, Map<Seq<u8>, Seq<u8>>)
    decreases device_ids.len(),
{
    if device_ids.len() == 0 {
        (token_userdeviceid, userdeviceid_token)
    } else {
        let before = tokens_dropped(
            token_userdeviceid,
            userdeviceid_token,
            user_id,
            device_ids.drop_last(),
        );
        token_dropped(before.0, before.1, device_key(user_id, device_ids.last()))
    }
}

/// The keys of the user's devices with the given ids.
pub open spec fn device_keys(user_id: Seq<char>, device_ids: Seq<Seq<char>>) -> Seq<Seq<u8>> {
    Seq::new(device_ids.len(), |i: int| device_key(user_id, device_ids[i]))
}

/// Giving a device a token keeps the tokens consistent.
pub proof fn lemma_token_set_consistent(
    token_userdeviceid: Map<Seq<u8>, Seq<u8>>,
    userdeviceid_token: Map<Seq<u8>, Seq<u8>>,
    device: Seq<u8>,
    token: Seq<u8>,
)
    requires
        tokens_consistent(token_userdeviceid, userdeviceid_token),
    ensures
        tokens_consistent(
            token_set(token_userdeviceid, userdeviceid_token, device, token).0,
            token_set(token_userdeviceid, userdeviceid_token, device, token).1,
        ),
{
    let after = token_set(token_userdeviceid, userdeviceid_token, device, token);
    assert forall|t: Seq<u8>| #[trigger] after.0.contains_key(t) implies after.1.contains_key(
        after.0[t],
    ) && after.1[after.0[t]] == t by {
        if t != token {
            assert(token_userdeviceid.contains_key(t));
        }
    }
}

/// Removing a device keeps the tokens consistent.
pub proof fn lemma_token_dropped_consistent(
    token_userdeviceid: Map<Seq<u8>, Seq<u8>>,
    userdeviceid_token: Map<Seq<u8>, Seq<u8>>,
    device: Seq<u8>,
)
    requires
        tokens_consistent(token_userdeviceid, userdeviceid_token),
    ensures
        tokens_consistent(
            token_dropped(token_userdeviceid, userdeviceid_token, device).0,
            token_dropped(token_userdeviceid, userdeviceid_token, device).1,
        ),
{
    let after = token_dropped(token_userdeviceid, userdeviceid_token, device);
    assert forall|t: Seq<u8>| #[trigger] after.0.contains_key(t) implies after.1.contains_key(
        after.0[t],
    ) && after.1[after.0[t]] == t by {
        assert(token_userdeviceid.contains_key(t));
    }
}

/// The user and the device that a row of `token_userdeviceid` names: the
/// first two fields of its value, which must be UTF-8.
pub open spec fn token_owner(value: Seq<u8>) -> Result<(Seq<char>, Seq<char>), Error> {
    match after_first_field(value) {
        None => Err(Error::BadDatabase("Device ID in token_userdeviceid is invalid.")),
        Some(rest) => if !valid_utf8(first_field(value)) {
            Err(Error::BadDatabase("User ID in token_userdeviceid is invalid unicode."))
        } else if !valid_utf8(first_field(rest)) {
            Err(Error::BadDatabase("Device ID in token_userdeviceid is invalid."))
        } else {
            Ok((decode_utf8(first_field(value)), decode_utf8(first_field(rest))))
        },
    }
}

/// The strings that end the keys of the rows, which must be UTF-8: the ids
/// that a scan of one prefix lists. Reading stops at the first that is not.
pub open spec fn last_fields(rows: Seq<(Seq<u8>, Seq<u8>)>) -> Option<Seq<Seq<char>>>
    decreases rows.len(),
{
    if rows.len() == 0 {
        Some(Seq::empty())
    } else {
        match last_fields(rows.drop_last()) {
            None => None,
            Some(ids) => if valid_utf8(last_field(rows.last().0)) {
                Some(ids.push(decode_utf8(last_field(rows.last().0))))
            } else {
                None
            },
        }
    }
}

proof fn lemma_last_fields_stop(rows: Seq<(Seq<u8>, Seq<u8>)>, n: int)
    requires
        0 <= n <= rows.len(),
        last_fields(rows.take(n)) is None,
    ensures
        last_fields(rows) is None,
    decreases rows.len() - n,
{
    if n < rows.len() {
        assert(rows.take(n + 1).drop_last() =~= rows.take(n));
        lemma_last_fields_stop(rows, n + 1);
    } else {
        assert(rows.take(n) =~= rows);
    }
}

/// Reads the ids that end the keys of the rows.
pub fn ids_of(rows: &Vec<(Vec<u8>, Vec<u8>)>) -> (r: Option<Vec<String>>)
    ensures
        match r {
            Some(ids) => last_fields(rows_of(rows@)) == Some(crate::config::strings_view(ids@)),
            None => last_fields(rows_of(rows@)) is None,
        },
{
    let mut out: Vec<String> = Vec::new();
    let mut i: usize = 0;
    let ghost list = rows_of(rows@);
    proof {
        assert(list.take(0) =~= Seq::empty());
        assert(crate::config::strings_view(out@) =~= Seq::empty());
    }
    while i < rows.len()
        invariant
            i <= rows@.len(),
            list == rows_of(rows@),
            last_fields(list.take(i as int)) == Some(crate::config::strings_view(out@)),
        decreases rows@.len() - i,
    {
        proof {
            assert(list.take(i + 1).drop_last() =~= list.take(i as int));
            assert(list.take(i + 1).last() == list[i as int]);
            assert(list[i as int] == (rows@[i as int].0@, rows@[i as int].1@));
        }
        let ghost before = crate::config::strings_view(out@);
        match string_from_bytes(last_field_of(rows[i].0.as_slice()).as_slice()) {
            Ok(id) => {
                out.push(id);
                assert(crate::config::strings_view(out@) =~= before.push(id@));
            },
            Err(_) => {
                proof {
                    lemma_last_fields_stop(list, i + 1);
                }
                return None;
            },
        }
        i = i + 1;
    }
    assert(list.take(i as int) =~= list);
    Some(out)
}

/// The ids that end the keys of the rows, leaving out the id `keep` and
/// what is not UTF-8.
pub open spec fn other_ids(rows: Seq<(Seq<u8>, Seq<u8>)>, keep: Seq<char>) -> Seq<Seq<char>>
    decreases rows.len(),
{
    if rows.len() == 0 {
        Seq::empty()
    } else {
        let id = last_field(rows.last().0);
        if valid_utf8(id) && decode_utf8(id) != keep {
            other_ids(rows.drop_last(), keep).push(decode_utf8(id))
        } else {
            other_ids(rows.drop_last(), keep)
        }
    }
}

/// The key of a device.
fn device_key_of(user_id: &str, device_id: &str) -> (r: Vec<u8>)
    ensures
        r@ == device_key(user_id@, device_id@),
{
    let mut key = to_vec(user_id.as_bytes());
    key.push(SEPARATOR);
    append(&mut key, device_id.as_bytes());
    key
}

/// The beginning of the keys of a user's devices.
pub fn user_prefix_of(user_id: &str) -> (r: Vec<u8>)
    ensures
        r@ == user_prefix(user_id@),
{
    let mut key = to_vec(user_id.as_bytes());
    key.push(SEPARATOR);
    key
}

impl Users {
    /// The trees are well formed.
    pub open spec fn wf(&self) -> bool {
        &&& self.userid_password.wf()
        &&& self.userdeviceid_token.wf()
        &&& self.userdeviceid_metadata.wf()
        &&& self.userid_devicelistversion.wf()
        &&& self.token_userdeviceid.wf()
        &&& self.todeviceid_events.wf()
    }

    /// Token uniqueness holds of these tables.
    pub open spec fn tokens_consistent(&self) -> bool {
        tokens_consistent(self.token_userdeviceid@, self.userdeviceid_token@)
    }

    /// No table holds a row, and nobody waits on any of them.
    pub open spec fn fresh(&self) -> bool {
        &&& self.userid_password.fresh()
        &&& self.userdeviceid_token.fresh()
        &&& self.userdeviceid_metadata.fresh()
        &&& self.userid_devicelistversion.fresh()
        &&& self.token_userdeviceid.fresh()
        &&& self.todeviceid_events.fresh()
    }

    /// The account of the user was deactivated: its password is the empty
    /// string, and its devices are gone with their tokens.
    pub open spec fn deactivated(&self, before: Users, user_id: Seq<char>) -> bool {
        match last_fields(listing(before.userdeviceid_metadata@, with_prefix(user_prefix(user_id)))) {
            None => false,
            Some(ids) => self.userid_password@ == before.userid_password@.insert(
                encode_utf8(user_id),
                Seq::<u8>::empty(),
            ) && (self.token_userdeviceid@, self.userdeviceid_token@) == tokens_dropped(
                before.token_userdeviceid@,
                before.userdeviceid_token@,
                user_id,
                ids,
            ) && self.userdeviceid_metadata@ == remove_all(
                before.userdeviceid_metadata@,
                device_keys(user_id, ids),
            ),
        }
    }

    /// Tables without an account.
    pub fn new() -> (r: Users)
        ensures
            r.wf(),
            r.fresh(),
            r.tokens_consistent(),
            r.userid_password@ == Map::<Seq<u8>, Seq<u8>>::empty(),
    {
        Users {
            userid_password: Tree::new(),
            userdeviceid_token: Tree::new(),
            userdeviceid_metadata: Tree::new(),
            userid_devicelistversion: Tree::new(),
            token_userdeviceid: Tree::new(),
            todeviceid_events: Tree::new(),
        }
    }

    /// Check if a user has an account on this homeserver.
    pub fn exists_user(&self, user_id: &str) -> (r: bool)
        requires
            self.wf(),
        ensures
            r == self.userid_password@.contains_key(encode_utf8(user_id@)),
    {
        self.userid_password.contains_key(user_id.as_bytes())
    }

    /// Check if account is deactivated: whether it has no password.
    pub fn is_deactivated(&self, user_id: &str) -> (r: Result<bool, Error>)
        requires
            self.wf(),
        ensures
            match self.userid_password.stored(encode_utf8(user_id@)) {
                Some(hash) => r == Ok::<bool, Error>(hash.len() == 0),
                None => r == Err::<bool, Error>(
                    Error::BadRequest(ErrorKind::InvalidParam, "User does not exist."),
                ),
            },
    {
        match self.userid_password.get(user_id.as_bytes()) {
            Some(hash) => Ok(hash.len() == 0),
            None => Err(Error::BadRequest(ErrorKind::InvalidParam, "User does not exist.")),
        }
    }

    /// Returns the password hash for the given user.
    pub fn password_hash(&self, user_id: &str) -> (r: Result<Option<String>, Error>)
        requires
            self.wf(),
        ensures
            match self.userid_password.stored(encode_utf8(user_id@)) {
                None => r matches Ok(None),
                Some(hash) => if valid_utf8(hash) {
                    r matches Ok(Some(s)) && s@ == decode_utf8(hash)
                } else {
                    r matches Err(e) && e == Error::BadDatabase(
                        "Password hash in db is not valid string.",
                    )
                },
            },
    {
        match self.userid_password.get(user_id.as_bytes()) {
            None => Ok(None),
            Some(hash) => match string_from_bytes(hash.as_slice()) {
                Ok(s) => Ok(Some(s)),
                Err(_) => Err(Error::bad_database("Password hash in db is not valid string.")),
            },
        }
    }

    /// Create a new user account on this homeserver. Creating a user that
    /// exists sets the password and leaves the devices as they are.
    pub fn create(&mut self, user_id: &str, password: Option<&str>) -> (r: Result<(), Error>)
        requires
            old(self).wf(),
        ensures
            final(self).wf(),
            final(self).password_set(*old(self), user_id@, crate::account_data::opt_view(password), r),
    {
        self.set_password(user_id, password)
    }

    /// What setting a password does: without a password the empty string is
    /// stored, and with one a hash of it under a fresh salt. Nothing else
    /// changes. The password is rejected only where it cannot be hashed,
    /// and a password of at most `u32::MAX` bytes can.
    pub open spec fn password_set(
        &self,
        before: Users,
        user_id: Seq<char>,
        password: Option<Seq<char>>,
        r: Result<(), Error>,
    ) -> bool {
        &&& self.userdeviceid_token == before.userdeviceid_token
        &&& self.userdeviceid_metadata == before.userdeviceid_metadata
        &&& self.userid_devicelistversion == before.userid_devicelistversion
        &&& self.token_userdeviceid == before.token_userdeviceid
        &&& self.todeviceid_events == before.todeviceid_events
        &&& match r {
            Ok(_) => self.userid_password.watch() == before.userid_password.watch().fire(
                encode_utf8(user_id),
            ) && match password {
                None => self.userid_password@ == before.userid_password@.insert(
                    encode_utf8(user_id),
                    Seq::<u8>::empty(),
                ),
                Some(p) => self.userid_password@.contains_key(encode_utf8(user_id))
                    && self.userid_password@ == before.userid_password@.insert(
                    encode_utf8(user_id),
                    self.userid_password@[encode_utf8(user_id)],
                ) && holds_hash_of(self.userid_password@[encode_utf8(user_id)], p),
            },
            Err(e) => self.userid_password == before.userid_password && e == Error::BadRequest(
                ErrorKind::InvalidParam,
                "Password does not meet the requirements.",
            ) && password is Some && encode_utf8(password->Some_0).len() > u32::MAX,
        }
    }

    /// Hash and set the user's password to the Argon2 hash
    pub fn set_password(&mut self, user_id: &str, password: Option<&str>) -> (r: Result<(), Error>)
        requires
            old(self).wf(),
        ensures
            final(self).wf(),
            final(self).password_set(*old(self), user_id@, crate::account_data::opt_view(password), r),
    {
        match password {
            Some(password) => match calculate_hash(password) {
                Some(hash) => {
                    self.userid_password.insert(user_id.as_bytes(), hash.as_str().as_bytes());
                    assert(is_hash_of(hash@, password@) && hash@.len() > 0);
                    assert(holds_hash_of(encode_utf8(hash@), password@));
                    Ok(())
                },
                None => Err(
                    Error::BadRequest(
                        ErrorKind::InvalidParam,
                        "Password does not meet the requirements.",
                    ),
                ),
            },
            None => {
                let empty: Vec<u8> = Vec::new();
                self.userid_password.insert(user_id.as_bytes(), empty.as_slice());
                Ok(())
            },
        }
    }

    /// Replaces the access token of one device.
    pub fn set_token(&mut self, user_id: &str, device_id: &str, token: &str)
        requires
            old(self).wf(),
        ensures
            final(self).wf(),
            final(self).userid_password == old(self).userid_password,
            final(self).userdeviceid_metadata == old(self).userdeviceid_metadata,
            final(self).userid_devicelistversion == old(self).userid_devicelistversion,
            final(self).todeviceid_events == old(self).todeviceid_events,
            (final(self).token_userdeviceid@, final(self).userdeviceid_token@) == token_set(
                old(self).token_userdeviceid@,
                old(self).userdeviceid_token@,
                device_key(user_id@, device_id@),
                encode_utf8(token@),
            ),
            old(self).tokens_consistent() ==> final(self).tokens_consistent(),
    {
        let userdeviceid = device_key_of(user_id, device_id);
        // Remove old token
        match self.userdeviceid_token.get(userdeviceid.as_slice()) {
            Some(old_token) => {
                self.token_userdeviceid.remove(old_token.as_slice());
            },
            None => {},
        }
        // Assign token to user device combination
        self.userdeviceid_token.insert(userdeviceid.as_slice(), token.as_bytes());
        self.token_userdeviceid.insert(token.as_bytes(), userdeviceid.as_slice());
        proof {
            if old(self).tokens_consistent() {
                lemma_token_set_consistent(
                    old(self).token_userdeviceid@,
                    old(self).userdeviceid_token@,
                    device_key(user_id@, device_id@),
                    encode_utf8(token@),
                );
            }
        }
    }

    /// Adds a new device to a user, with `metadata` as what is known of the
    /// device, and gives it the access token.
    pub fn create_device(&mut self, user_id: &str, device_id: &str, token: &str, metadata: &[u8])
        requires
            old(self).wf(),
            old(self).userid_password@.contains_key(encode_utf8(user_id@)),
        ensures
            final(self).wf(),
            final(self).userid_password == old(self).userid_password,
            final(self).todeviceid_events == old(self).todeviceid_events,
            final(self).userdeviceid_metadata@ == old(self).userdeviceid_metadata@.insert(
                device_key(user_id@, device_id@),
                metadata@,
            ),
            final(self).userid_devicelistversion@ == bumped(
                old(self).userid_devicelistversion@,
                encode_utf8(user_id@),
            ),
            (final(self).token_userdeviceid@, final(self).userdeviceid_token@) == token_set(
                old(self).token_userdeviceid@,
                old(self).userdeviceid_token@,
                device_key(user_id@, device_id@),
                encode_utf8(token@),
            ),
            old(self).tokens_consistent() ==> final(self).tokens_consistent(),
    {
        let userdeviceid = device_key_of(user_id, device_id);
        self.userid_devicelistversion.try_increment(user_id.as_bytes());
        self.userdeviceid_metadata.insert(userdeviceid.as_slice(), metadata);
        self.set_token(user_id, device_id, token);
    }

    /// Removes a device from a user: its token, what is known of it, and
    /// the events that wait for it.
    pub fn remove_device(&mut self, user_id: &str, device_id: &str)
        requires
            old(self).wf(),
        ensures
            final(self).wf(),
            final(self).userid_password == old(self).userid_password,
            (final(self).token_userdeviceid@, final(self).userdeviceid_token@) == token_dropped(
                old(self).token_userdeviceid@,
                old(self).userdeviceid_token@,
                device_key(user_id@, device_id@),
            ),
            final(self).userdeviceid_metadata@ == old(self).userdeviceid_metadata@.remove(
                device_key(user_id@, device_id@),
            ),
            final(self).todeviceid_events@ == remove_all(
                old(self).todeviceid_events@,
                keys_of(
                    listing(
                        old(self).todeviceid_events@,
                        with_prefix(device_key(user_id@, device_id@).push(SEPARATOR)),
                    ),
                ),
            ),
            final(self).userid_devicelistversion@ == bumped(
                old(self).userid_devicelistversion@,
                encode_utf8(user_id@),
            ),
            old(self).tokens_consistent() ==> final(self).tokens_consistent(),
    {
        let userdeviceid = device_key_of(user_id, device_id);
        // Remove tokens
        match self.userdeviceid_token.get(userdeviceid.as_slice()) {
            Some(old_token) => {
                self.userdeviceid_token.remove(userdeviceid.as_slice());
                self.token_userdeviceid.remove(old_token.as_slice());
            },
            None => {},
        }
        proof {
            if old(self).tokens_consistent() {
                lemma_token_dropped_consistent(
                    old(self).token_userdeviceid@,
                    old(self).userdeviceid_token@,
                    device_key(user_id@, device_id@),
                );
            }
        }
        // Remove todevice events
        let mut prefix = to_vec(userdeviceid.as_slice());
        prefix.push(SEPARATOR);
        let rows = self.todeviceid_events.scan_prefix(prefix.as_slice());
        let ghost list = rows_of(rows@);
        let ghost start = self.todeviceid_events@;
        let mut i: usize = 0;
        proof {
            assert(keys_of(list).take(0) =~= Seq::empty());
        }
        while i < rows.len()
            invariant
                i <= rows@.len(),
                list == rows_of(rows@),
                self.wf(),
                self.userid_password == old(self).userid_password,
                self.userdeviceid_token@ == token_dropped(
                    old(self).token_userdeviceid@,
                    old(self).userdeviceid_token@,
                    device_key(user_id@, device_id@),
                ).1,
                self.token_userdeviceid@ == token_dropped(
                    old(self).token_userdeviceid@,
                    old(self).userdeviceid_token@,
                    device_key(user_id@, device_id@),
                ).0,
                self.userdeviceid_metadata == old(self).userdeviceid_metadata,
                self.userid_devicelistversion == old(self).userid_devicelistversion,
                self.todeviceid_events@ == remove_all(start, keys_of(list).take(i as int)),
            decreases rows@.len() - i,
        {
            proof {
                assert(keys_of(list).take(i + 1).drop_last() =~= keys_of(list).take(i as int));
                assert(keys_of(list).take(i + 1).last() == rows@[i as int].0@);
            }
            self.todeviceid_events.remove(rows[i].0.as_slice());
            i = i + 1;
        }
        assert(keys_of(list).take(i as int) =~= keys_of(list));
        self.userid_devicelistversion.try_increment(user_id.as_bytes());
        self.userdeviceid_metadata.remove(userdeviceid.as_slice());
    }

    /// Returns the ids of the user's devices other than `keep`. An id that
    /// is not UTF-8 is passed over.
    pub fn other_device_ids(&self, user_id: &str, keep: &str) -> (r: Vec<String>)
        requires
            self.wf(),
        ensures
            crate::config::strings_view(r@) == other_ids(
                listing(self.userdeviceid_metadata@, with_prefix(user_prefix(user_id@))),
                keep@,
            ),
    {
        let prefix = user_prefix_of(user_id);
        let rows = self.userdeviceid_metadata.scan_prefix(prefix.as_slice());
        let ghost list = rows_of(rows@);
        let mut out: Vec<String> = Vec::new();
        let mut i: usize = 0;
        proof {
            assert(list.take(0) =~= Seq::empty());
            assert(crate::config::strings_view(out@) =~= Seq::empty());
        }
        while i < rows.len()
            invariant
                i <= rows@.len(),
                list == rows_of(rows@),
                crate::config::strings_view(out@) == other_ids(list.take(i as int), keep@),
            decreases rows@.len() - i,
        {
            proof {
                assert(list.take(i + 1).drop_last() =~= list.take(i as int));
                assert(list.take(i + 1).last() == (rows@[i as int].0@, rows@[i as int].1@));
            }
            let ghost before = crate::config::strings_view(out@);
            match string_from_bytes(last_field_of(rows[i].0.as_slice()).as_slice()) {
                Ok(id) => {
                    if !crate::utils::str_eq(id.as_str(), keep) {
                        out.push(id);
                        assert(crate::config::strings_view(out@) =~= before.push(id@));
                    }
                },
                Err(_) => {},
            }
            i = i + 1;
        }
        assert(list.take(i as int) =~= list);
        out
    }

    /// Removes the user's devices with the given ids, one after the other.
    pub fn remove_devices(&mut self, user_id: &str, device_ids: &Vec<String>)
        requires
            old(self).wf(),
        ensures
            final(self).wf(),
            final(self).userid_password == old(self).userid_password,
            (final(self).token_userdeviceid@, final(self).userdeviceid_token@) == tokens_dropped(
                old(self).token_userdeviceid@,
                old(self).userdeviceid_token@,
                user_id@,
                crate::config::strings_view(device_ids@),
            ),
            final(self).userdeviceid_metadata@ == remove_all(
                old(self).userdeviceid_metadata@,
                device_keys(user_id@, crate::config::strings_view(device_ids@)),
            ),
            old(self).tokens_consistent() ==> final(self).tokens_consistent(),
    {
        let ghost ids = crate::config::strings_view(device_ids@);
        let mut i: usize = 0;
        proof {
            assert(ids.take(0) =~= Seq::empty());
            assert(device_keys(user_id@, ids).take(0) =~= Seq::empty());
        }
        while i < device_ids.len()
            invariant
                i <= device_ids@.len(),
                ids == crate::config::strings_view(device_ids@),
                self.wf(),
                self.userid_password == old(self).userid_password,
                (self.token_userdeviceid@, self.userdeviceid_token@) == tokens_dropped(
                    old(self).token_userdeviceid@,
                    old(self).userdeviceid_token@,
                    user_id@,
                    ids.take(i as int),
                ),
                self.userdeviceid_metadata@ == remove_all(
                    old(self).userdeviceid_metadata@,
                    device_keys(user_id@, ids).take(i as int),
                ),
                old(self).tokens_consistent() ==> self.tokens_consistent(),
            decreases device_ids@.len() - i,
        {
            proof {
                assert(ids.take(i + 1).drop_last() =~= ids.take(i as int));
                assert(ids.take(i + 1).last() == device_ids@[i as int]@);
                let keys = device_keys(user_id@, ids);
                assert(keys.take(i + 1).drop_last() =~= keys.take(i as int));
                assert(keys.take(i + 1).last() == device_key(user_id@, device_ids@[i as int]@));
            }
            self.remove_device(user_id, device_ids[i].as_str());
            i = i + 1;
        }
        assert(ids.take(i as int) =~= ids);
        assert(device_keys(user_id@, ids).take(i as int) =~= device_keys(user_id@, ids));
    }

    /// Deactivate account: removes all the user's devices and leaves the
    /// account without a password, so that nobody can log in to it.
    /// Nothing changes where a device id of the user cannot be read.
    pub fn deactivate_account(&mut self, user_id: &str) -> (r: Result<(), Error>)
        requires
            old(self).wf(),
        ensures
            final(self).wf(),
            old(self).tokens_consistent() ==> final(self).tokens_consistent(),
            match last_fields(
                listing(old(self).userdeviceid_metadata@, with_prefix(user_prefix(user_id@))),
            ) {
                None => *final(self) == *old(self) && r == Err::<(), Error>(
                    Error::BadDatabase("Device ID in userdeviceid_metadata is invalid."),
                ),
                Some(ids) => r is Ok
                    && final(self).userid_password@ == old(self).userid_password@.insert(encode_utf8(user_id@), Seq::<u8>::empty())
                    && (
                final(self).token_userdeviceid@, final(self).userdeviceid_token@) == tokens_dropped(
                    old(self).token_userdeviceid@,
                    old(self).userdeviceid_token@,
                    user_id@,
                    ids,
                ) && final(self).userdeviceid_metadata@ == remove_all(
                    old(self).userdeviceid_metadata@,
                    device_keys(user_id@, ids),
                ),
            },
    {
        // Remove all associated devices
        let device_ids = match self.all_device_ids(user_id) {
            Ok(ids) => ids,
            Err(e) => {
                return Err(e);
            },
        };
        self.remove_devices(user_id, &device_ids);
        // Set the password to "" to indicate a deactivated account. Hashes will never result in an
        // empty string, so the user will not be able to log in again.
        let empty: Vec<u8> = Vec::new();
        self.userid_password.insert(user_id.as_bytes(), empty.as_slice());
        Ok(())
    }

    /// Returns the ids of all devices of the user.
    pub fn all_device_ids(&self, user_id: &str) -> (r: Result<Vec<String>, Error>)
        requires
            self.wf(),
        ensures
            match r {
                Ok(ids) => last_fields(
                    listing(self.userdeviceid_metadata@, with_prefix(user_prefix(user_id@))),
                ) == Some(crate::config::strings_view(ids@)),
                Err(e) => last_fields(
                    listing(self.userdeviceid_metadata@, with_prefix(user_prefix(user_id@))),
                ) is None && e == Error::BadDatabase(
                    "Device ID in userdeviceid_metadata is invalid.",
                ),
            },
    {
        let prefix = user_prefix_of(user_id);
        let rows = self.userdeviceid_metadata.scan_prefix(prefix.as_slice());
        match ids_of(&rows) {
            Some(ids) => Ok(ids),
            None => Err(Error::bad_database("Device ID in userdeviceid_metadata is invalid.")),
        }
    }

    /// Find out which user an access token belongs to.
    pub fn find_from_token(&self, token: &str) -> (r: Result<Option<(String, String)>, Error>)
        requires
            self.wf(),
        ensures
            match self.token_userdeviceid.stored(encode_utf8(token@)) {
                None => r matches Ok(None),
                Some(value) => match token_owner(value) {
                    Ok(owner) => r matches Ok(Some(found)) && found.0@ == owner.0 && found.1@
                        == owner.1,
                    Err(e) => r matches Err(err) && err == e,
                },
            },
    {
        match self.token_userdeviceid.get(token.as_bytes()) {
            None => Ok(None),
            Some(value) => {
                let rest = match after_first_field_of(value.as_slice()) {
                    Some(rest) => rest,
                    None => {
                        return Err(
                            Error::bad_database("Device ID in token_userdeviceid is invalid."),
                        );
                    },
                };
                let user = match string_from_bytes(first_field_of(value.as_slice()).as_slice()) {
                    Ok(user) => user,
                    Err(_) => {
                        return Err(
                            Error::bad_database(
                                "User ID in token_userdeviceid is invalid unicode.",
                            ),
                        );
                    },
                };
                let device = match string_from_bytes(first_field_of(rest.as_slice()).as_slice()) {
                    Ok(device) => device,
                    Err(_) => {
                        return Err(
                            Error::bad_database("Device ID in token_userdeviceid is invalid."),
                        );
                    },
                };
                Ok(Some((user, device)))
            },
        }
    }
}

} // verus!
