//! The database: every table of the server, how it is assembled from what
//! was stored, brought up to the current schema, and watched for changes.

use crate::account_data::AccountData;
use crate::config::Config;
use crate::error::Error;
use crate::globals::{count_of, counter_key, error_of, version_key, Globals};
use crate::media::Media;
use crate::migrations::keys_view;
use crate::migrations::{
    accounts_for, collect, file_2_3, migrate_0_to_1, migrate_1_to_2, migrate_2_to_3,
    migrate_3_to_4, migrate_4_to_5, migrate_6_to_7, new_keys_of, pduid_rule, rekey_all,
    remote_for_accounts, rooms_by_short_id, short_ids_from, tokenid_rule, write_0_1, write_1_2,
    write_2_3, write_4_5, all_indexable,
};
use crate::rooms::Rooms;
use crate::state_rebuild::{migrate_5_to_6, rebuilt_from};
use crate::tree::{every_key, listing, put_all, rows_of, Tree};
use crate::uiaa::Uiaa;
use crate::users::{UserKeys, Users};
use crate::membership::Membership;
use crate::rooms::{Notifications, RoomEdus, RoomServers, RoomState, ShortRoomIds, Timeline};
use crate::tree::{with_prefix, Watch};
use crate::users::{device_key, user_prefix, user_prefix_of};
use crate::utils::{
    append, be_bytes, be_value, last_field, last_field_of, str_eq, string_from_bytes, to_vec,
    u64_from_bytes, SEPARATOR,
};
use vstd::utf8::*;
use vstd::prelude::*;

verus! {

/// The schema version that a migrated database has.
pub const LATEST_VERSION: u64 = 7;

/// Every table of the server.
pub struct Database {
    pub globals: Globals,
    pub users: Users,
    pub user_keys: UserKeys,
    pub uiaa: Uiaa,
    pub rooms: Rooms,
    pub account_data: AccountData,
    pub media: Media,
}

/// The schema version that the tree `global` records: zero where it
/// records none, and none where what it records cannot be read.
pub open spec fn version_of(globals: Map<Seq<u8>, Seq<u8>>) -> Option<nat> {
    if !globals.contains_key(version_key()) {
        Some(0)
    } else if globals[version_key()].len() == 8 {
        Some(be_value(globals[version_key()]))
    } else {
        None
    }
}

/// Decides what to make of the files found in the database directory: a
/// database of the old engine alone cannot be used; beside a database of
/// the new engine it only takes up space, which calls for a notice.
pub fn check_sled_or_sqlite_db(sled_exists: bool, sqlite_exists: bool) -> (r: Result<bool, Error>)
    ensures
        r == if sled_exists && !sqlite_exists {
            Err::<bool, Error>(Error::BadConfig("sled database detected, migrate to sqlite"))
        } else {
            Ok::<bool, Error>(sled_exists)
        },
{
    if sled_exists {
        if sqlite_exists {
            // most likely an in-place directory, only warn
            Ok(true)
        } else {
            Err(Error::bad_config("sled database detected, migrate to sqlite"))
        }
    } else {
        Ok(false)
    }
}

/// One step of a migration as it went: the database it left, the error
/// that stopped it, if any, and the files it moved out of the media table.
pub ghost struct Step {
    pub after: Database,
    pub failed: Option<Error>,
    pub files: Seq<(Seq<u8>, Seq<u8>)>,
}

/// The error of a result, if it is one.
pub open spec fn error_of_files(r: Result<Vec<(Vec<u8>, Vec<u8>)>, Error>) -> Option<Error> {
    match r {
        Ok(_) => None,
        Err(e) => Some(e),
    }
}

/// The files of a result, if it has any.
pub open spec fn files_of(r: Result<Vec<(Vec<u8>, Vec<u8>)>, Error>) -> Seq<(Seq<u8>, Seq<u8>)> {
    match r {
        Ok(files) => rows_of(files@),
        Err(_) => Seq::empty(),
    }
}

impl Database {
    /// Every tree is well formed.
    pub open spec fn wf(&self) -> bool {
        &&& self.globals.wf()
        &&& self.users.wf()
        &&& self.user_keys.wf()
        &&& self.uiaa.wf()
        &&& self.rooms.wf()
        &&& self.account_data.wf()
        &&& self.media.mediaid_file.wf()
    }

    /// What one step of the migration does to the tables, the version and
    /// the counter aside: the step to version `target` as its own contract
    /// states it, with `failed` the error that stopped it and `files` the
    /// files it moved out of the media table.
    pub open spec fn step_applied(
        &self,
        before: Database,
        target: u64,
        failed: Option<Error>,
        files: Seq<(Seq<u8>, Seq<u8>)>,
    ) -> bool {
        &&& self.globals.config == before.globals.config
        &&& self.globals.servertimeout_signingkey == before.globals.servertimeout_signingkey
        &&& self.globals.rotate == before.globals.rotate
        &&& self.globals.has_keypair() == before.globals.has_keypair()
        &&& self.user_keys == before.user_keys
        &&& self.uiaa == before.uiaa
        &&& self.rooms.membership == before.rooms.membership
        &&& self.rooms.edus == before.rooms.edus
        &&& self.rooms.notifications == before.rooms.notifications
        &&& target != 2 && target != 4 ==> self.users == before.users
        &&& target != 1 ==> self.rooms.servers == before.rooms.servers
        &&& target != 7 ==> self.rooms.timeline == before.rooms.timeline && self.rooms.shortids
            == before.rooms.shortids && count_of(self.globals.globals@) == count_of(
            before.globals.globals@,
        )
        &&& target != 6 ==> self.rooms.state == before.rooms.state
        &&& target != 5 ==> self.account_data == before.account_data
        &&& target != 3 ==> self.media == before.media && files.len() == 0
        &&& target == 1 ==> failed is None && self.rooms.servers.roomserverids
            == before.rooms.servers.roomserverids && self.rooms.servers.serverroomids@ == put_all(
            before.rooms.servers.serverroomids@,
            collect(listing(before.rooms.servers.roomserverids@, every_key()), write_0_1()),
        )
        &&& target == 2 ==> failed is None && self.users.userid_password@ == put_all(
            before.users.userid_password@,
            collect(listing(before.users.userid_password@, every_key()), write_1_2()),
        )
        &&& target == 3 ==> failed is None && files == collect(
            listing(before.media.mediaid_file@, every_key()),
            file_2_3(),
        ) && self.media.mediaid_file@ == put_all(
            before.media.mediaid_file@,
            collect(listing(before.media.mediaid_file@, every_key()), write_2_3()),
        )
        &&& target == 4 ==> match remote_for_accounts(
            listing(before.users.userid_password@, every_key()),
            before.rooms.membership.userroomid_joined@,
            before.rooms.membership.roomuserid_joined@,
            before.globals.config.server_name@,
        ) {
            Ok(remote) => failed is None && self.users.userid_password@ == put_all(
                before.users.userid_password@,
                accounts_for(remote),
            ),
            Err(e) => failed == Some(e) && self.users.userid_password
                == before.users.userid_password,
        }
        &&& target == 5 ==> self.account_data.roomuserdataid_accountdata
            == before.account_data.roomuserdataid_accountdata && if all_indexable(
            listing(before.account_data.roomuserdataid_accountdata@, every_key()),
        ) {
            failed is None && self.account_data.roomusertype_roomuserdataid@ == put_all(
                before.account_data.roomusertype_roomuserdataid@,
                collect(
                    listing(before.account_data.roomuserdataid_accountdata@, every_key()),
                    write_4_5(),
                ),
            )
        } else {
            failed == Some(Error::BadDatabase("RoomUserData ID in db is invalid."))
                && self.account_data.roomusertype_roomuserdataid
                == before.account_data.roomusertype_roomuserdataid
        }
        &&& target == 6 ==> self.rooms.state.stateid_shorteventid
            == before.rooms.state.stateid_shorteventid && self.rooms.state.roomid_shortstatehash
            == before.rooms.state.roomid_shortstatehash && self.rooms.state.statekey_shortstatekey
            == before.rooms.state.statekey_shortstatekey
            && self.rooms.state.shorteventid_shortstatehash
            == before.rooms.state.shorteventid_shortstatehash
            && self.rooms.state.statehash_shortstatehash
            == before.rooms.state.statehash_shortstatehash && (
        self.rooms.state.shortstatehash_statediff@, failed) == rebuilt_from(
            before.rooms.state.stateid_shorteventid@,
            before.rooms.state.shortstatehash_statediff@,
            before.rooms.timeline,
        )
        &&& target == 7 ==> {
            let rooms = listing(before.rooms.state.roomid_shortstatehash@, every_key());
            let count = count_of(before.globals.globals@);
            let ids = self.rooms.shortids.roomid_shortroomid@;
            let events = listing(before.rooms.timeline.pduid_pdu@, every_key());
            let tokens = listing(before.rooms.timeline.tokenids@, every_key());
            &&& count_of(self.globals.globals@) == count + rooms.len()
            &&& ids == put_all(
                before.rooms.shortids.roomid_shortroomid@,
                short_ids_from(rooms, count),
            )
            &&& self.rooms.shortids.shortroomid_roomid@ == put_all(
                before.rooms.shortids.shortroomid_roomid@,
                rooms_by_short_id(rooms, count),
            )
            &&& self.rooms.timeline.eventid_pduid == before.rooms.timeline.eventid_pduid
            &&& self.rooms.timeline.eventid_outlierpdu == before.rooms.timeline.eventid_outlierpdu
            &&& self.rooms.timeline.shorteventid_eventid
                == before.rooms.timeline.shorteventid_eventid
            &&& self.rooms.timeline.eventid_shorteventid
                == before.rooms.timeline.eventid_shorteventid
            &&& self.rooms.timeline.roomid_pduleaves == before.rooms.timeline.roomid_pduleaves
            &&& match (new_keys_of(events, pduid_rule(ids)), new_keys_of(tokens, tokenid_rule(ids))) {
                (Some(pduids), Some(tokenids)) => failed is None && self.rooms.timeline.pduid_pdu@
                    == rekey_all(before.rooms.timeline.pduid_pdu@, events, pduids)
                    && self.rooms.timeline.tokenids@ == rekey_all(
                    before.rooms.timeline.tokenids@,
                    tokens,
                    tokenids,
                ),
                (None, _) => failed == Some(Error::BadDatabase("Invalid pduid in db."))
                    && self.rooms.timeline.pduid_pdu@ == before.rooms.timeline.pduid_pdu@
                    && self.rooms.timeline.tokenids@ == before.rooms.timeline.tokenids@,
                _ => failed == Some(Error::BadDatabase("Invalid tokenid in db."))
                    && self.rooms.timeline.pduid_pdu@ == before.rooms.timeline.pduid_pdu@
                    && self.rooms.timeline.tokenids@ == before.rooms.timeline.tokenids@,
            }
        }
    }

    /// What [`Database::migrate_step`] does: a database that has reached the
    /// version is left as it is; one whose version cannot be read is left as
    /// it is and reported; else the step is applied, and the new version is
    /// recorded unless the step failed.
    #[verifier::opaque]
    pub open spec fn stepped(
        &self,
        before: Database,
        target: u64,
        failed: Option<Error>,
        files: Seq<(Seq<u8>, Seq<u8>)>,
    ) -> bool {
        match version_of(before.globals.globals@) {
            None => *self == before && failed == Some(
                Error::BadDatabase("Database version id is invalid."),
            ) && files.len() == 0,
            Some(version) => if version >= target {
                *self == before && failed is None && files.len() == 0
            } else {
                &&& self.step_applied(before, target, failed, files)
                &&& failed is Some ==> files.len() == 0
                &&& version_of(self.globals.globals@) == if failed is None {
                    Some(target as nat)
                } else {
                    Some(version)
                }
            },
        }
    }

    /// The database before step `i` of a run, counted from zero.
    pub open spec fn before_step(&self, steps: Seq<Step>, i: int) -> Database {
        if i <= 0 {
            *self
        } else {
            steps[i - 1].after
        }
    }

    /// What the migration does to this database: `steps` are the steps it
    /// takes, to the versions 1, 2 and so on, each from the database that
    /// the step before it left. Only the last step may have failed, and the
    /// run is complete where none has. `failed` is the error of the run,
    /// and `files` are the files that were moved out of the media table, at
    /// the step to version 3.
    #[verifier::opaque]
    pub open spec fn is_run(
        &self,
        steps: Seq<Step>,
        after: Database,
        failed: Option<Error>,
        files: Seq<(Seq<u8>, Seq<u8>)>,
    ) -> bool {
        &&& steps.len() <= LATEST_VERSION
        &&& forall|i: int|
            0 <= i < steps.len() ==> (#[trigger] steps[i]).after.stepped(
                self.before_step(steps, i),
                (i + 1) as u64,
                steps[i].failed,
                steps[i].files,
            )
        &&& forall|i: int| 0 <= i < steps.len() - 1 ==> (#[trigger] steps[i]).failed is None
        &&& after == self.before_step(steps, steps.len() as int)
        &&& if steps.len() > 0 && steps.last().failed is Some {
            failed == steps.last().failed
        } else {
            steps.len() == LATEST_VERSION && failed is None
        }
        &&& files == if steps.len() >= 3 {
            steps[2].files
        } else {
            Seq::empty()
        }
    }

    /// What a step needs of the counter: it can be read, and it has room
    /// for the step to version 7, which takes one count for every room.
    pub open spec fn counter_fits(&self) -> bool {
        &&& crate::globals::counter_readable(self.globals.globals@)
        &&& count_of(self.globals.globals@) + listing(
            self.rooms.state.roomid_shortstatehash@,
            every_key(),
        ).len() <= u64::MAX
    }

    /// Takes the database one step up, to the version `target`, unless it
    /// has reached that version already. Returns the files that the step
    /// moved out of the media table, which belong in files of their own.
    pub fn migrate_step(&mut self, target: u64) -> (r: Result<Vec<(Vec<u8>, Vec<u8>)>, Error>)
        requires
            old(self).wf(),
            1 <= target <= 7,
            old(self).counter_fits(),
        ensures
            final(self).wf(),
            final(self).stepped(*old(self), target, error_of_files(r), files_of(r)),
            target < 7 ==> final(self).counter_fits(),
    {
        reveal(Database::stepped);
        let version = match self.globals.database_version() {
            Ok(version) => version,
            Err(e) => {
                return Err(e);
            },
        };
        proof {
            if self.globals.globals@.contains_key(version_key()) {
                crate::utils::lemma_be_bytes_of_value(self.globals.globals@[version_key()]);
                crate::utils::lemma_pow256_values();
            }
        }
        if version >= target {
            return Ok(Vec::new());
        }
        let ghost before = *self;
        let mut files: Vec<(Vec<u8>, Vec<u8>)> = Vec::new();
        let outcome: Result<(), Error> = if target == 1 {
            migrate_0_to_1(&mut self.rooms.servers);
            Ok(())
        } else if target == 2 {
            // We accidentally inserted hashed versions of "" into the db instead of just ""
            migrate_1_to_2(&mut self.users);
            Ok(())
        } else if target == 3 {
            // Move media to filesystem
            files = migrate_2_to_3(&mut self.media);
            Ok(())
        } else if target == 4 {
            // Add federated users to db as deactivated
            let server_name = self.globals.config.server_name.clone();
            migrate_3_to_4(&mut self.users, &self.rooms.membership, server_name.as_str())
        } else if target == 5 {
            // Upgrade user data store
            migrate_4_to_5(&mut self.account_data)
        } else if target == 6 {
            // Upgrade state store
            migrate_5_to_6(&mut self.rooms.state, &self.rooms.timeline)
        } else {
            // Generate short room ids for all rooms
            migrate_6_to_7(
                &self.rooms.state,
                &mut self.rooms.shortids,
                &mut self.rooms.timeline,
                &mut self.globals,
            )
        };
        proof {
            assert(version_of(self.globals.globals@) == Some(version as nat)) by {
                if target == 7 {
                    assert(self.globals.globals@.remove(counter_key()).contains_key(version_key())
                        == before.globals.globals@.remove(counter_key()).contains_key(
                        version_key(),
                    ));
                    assert(self.globals.globals@.remove(counter_key())[version_key()]
                        == before.globals.globals@.remove(counter_key())[version_key()]);
                }
            }
        }
        match outcome {
            Ok(()) => {
                let ghost mid = self.globals.globals@;
                self.globals.bump_database_version(target);
                proof {
                    crate::utils::lemma_be_bytes_len(target as nat, 8);
                    crate::utils::lemma_pow256_values();
                    crate::utils::lemma_be_value_of_bytes(target as nat, 8);
                    assert(count_of(self.globals.globals@) == count_of(mid));
                }
                Ok(files)
            },
            Err(e) => Err(e),
        }
    }
}


/// The steps taken so far have all gone through, each from the database
/// that the step before it left, and have left `current`.
#[verifier::opaque]
spec fn partial_run(start: Database, steps: Seq<Step>, current: Database) -> bool {
    &&& steps.len() <= LATEST_VERSION
    &&& forall|i: int|
        0 <= i < steps.len() ==> (#[trigger] steps[i]).after.stepped(
            start.before_step(steps, i),
            (i + 1) as u64,
            steps[i].failed,
            steps[i].files,
        )
    &&& forall|i: int| 0 <= i < steps.len() ==> (#[trigger] steps[i]).failed is None
    &&& current == start.before_step(steps, steps.len() as int)
}

/// The files that the steps moved out of the media table.
spec fn run_files(steps: Seq<Step>) -> Seq<(Seq<u8>, Seq<u8>)> {
    if steps.len() >= 3 {
        steps[2].files
    } else {
        Seq::empty()
    }
}

proof fn lemma_partial_start(start: Database)
    ensures
        partial_run(start, Seq::empty(), start),
{
    reveal(partial_run);
}

proof fn lemma_partial_step(
    start: Database,
    steps: Seq<Step>,
    current: Database,
    next: Database,
    failed: Option<Error>,
    files: Seq<(Seq<u8>, Seq<u8>)>,
)
    requires
        partial_run(start, steps, current),
        steps.len() < LATEST_VERSION,
        next.stepped(current, (steps.len() + 1) as u64, failed, files),
    ensures
        failed is None ==> partial_run(start, steps.push(Step { after: next, failed, files }), next),
        failed is Some ==> start.is_run(
            steps.push(Step { after: next, failed, files }),
            next,
            failed,
            run_files(steps.push(Step { after: next, failed, files })),
        ),
        steps.len() != 2 ==> run_files(steps.push(Step { after: next, failed, files }))
            == run_files(steps),
        steps.len() == 2 ==> run_files(steps.push(Step { after: next, failed, files })) == files,
{
    reveal(partial_run);
    reveal(Database::is_run);
    let more = steps.push(Step { after: next, failed, files });
    assert forall|i: int| 0 <= i < more.len() implies (#[trigger] more[i]).after.stepped(
        start.before_step(more, i),
        (i + 1) as u64,
        more[i].failed,
        more[i].files,
    ) by {
        if i < steps.len() {
            assert(more[i] == steps[i]);
            assert(start.before_step(more, i) == start.before_step(steps, i));
        } else {
            assert(start.before_step(more, i) == current);
        }
    }
    assert forall|i: int| 0 <= i < more.len() - 1 implies (#[trigger] more[i]).failed is None by {
        assert(more[i] == steps[i]);
    }
    if steps.len() >= 3 {
        assert(more[2] == steps[2]);
    }
}

proof fn lemma_partial_done(start: Database, steps: Seq<Step>, current: Database)
    requires
        partial_run(start, steps, current),
        steps.len() == LATEST_VERSION,
    ensures
        start.is_run(steps, current, None, run_files(steps)),
{
    reveal(partial_run);
    reveal(Database::is_run);
}

proof fn lemma_run_repeats(
    start: Database,
    steps: Seq<Step>,
    after: Database,
    failed: Option<Error>,
    files: Seq<(Seq<u8>, Seq<u8>)>,
    i: int,
)
    requires
        start.is_run(steps, after, failed, files),
        version_of(start.globals.globals@) matches Some(version) && version >= LATEST_VERSION,
        0 <= i <= steps.len(),
    ensures
        start.before_step(steps, i) == start,
        i > 0 ==> steps[i - 1].failed is None && steps[i - 1].files.len() == 0,
    decreases i,
{
    reveal(Database::stepped);
    reveal(Database::is_run);
    if i > 0 {
        lemma_run_repeats(start, steps, after, failed, files, i - 1);
        assert(steps[i - 1].after.stepped(
            start.before_step(steps, i - 1),
            i as u64,
            steps[i - 1].failed,
            steps[i - 1].files,
        ));
    }
}

proof fn lemma_state_waits(
    start: Database,
    steps: Seq<Step>,
    after: Database,
    files: Seq<(Seq<u8>, Seq<u8>)>,
    i: int,
)
    requires
        start.is_run(steps, after, None, files),
        version_of(start.globals.globals@) matches Some(version) && version <= 5,
        0 <= i <= 5,
    ensures
        steps.len() == LATEST_VERSION,
        start.before_step(steps, i).rooms.state == start.rooms.state,
        start.before_step(steps, i).rooms.timeline == start.rooms.timeline,
        version_of(start.before_step(steps, i).globals.globals@) matches Some(version) && version
            <= 5,
    decreases i,
{
    reveal(Database::stepped);
    reveal(Database::is_run);
    if i > 0 {
        lemma_state_waits(start, steps, after, files, i - 1);
        assert(steps[i - 1].after.stepped(
            start.before_step(steps, i - 1),
            i as u64,
            steps[i - 1].failed,
            steps[i - 1].files,
        ));
        assert(steps[i - 1].failed is None);
    }
}

/// The migration gives every legacy state back: where a database of a
/// version before 6 that holds no layer yet is migrated without an error,
/// each state that its legacy rows spell is read back from the layers as
/// it stood there, over at most four layers.
pub proof fn lemma_migrated_states_read_back(
    start: Database,
    steps: Seq<Step>,
    after: Database,
    files: Seq<(Seq<u8>, Seq<u8>)>,
)
    requires
        start.wf(),
        start.is_run(steps, after, None, files),
        version_of(start.globals.globals@) matches Some(version) && version <= 5,
        crate::state_laws::store_sound(start.rooms.state.shortstatehash_statediff@),
        crate::state_laws::newest(start.rooms.state.shortstatehash_statediff@, 1),
    ensures
        crate::state_laws::store_sound(after.rooms.state.shortstatehash_statediff@),
        forall|i: int|
            0 <= i < crate::state_rebuild::legacy_states(
                listing(start.rooms.state.stateid_shorteventid@, every_key()),
            ).len() ==> crate::state_rebuild::reads_back(
                after.rooms.state.shortstatehash_statediff@,
                #[trigger] crate::state_rebuild::legacy_states(
                    listing(start.rooms.state.stateid_shorteventid@, every_key()),
                )[i],
            ),
{
    lemma_state_waits(start, steps, after, files, 5);
    reveal(Database::stepped);
    reveal(Database::is_run);
    let before = start.before_step(steps, 5);
    assert(steps[5].after.stepped(before, 6, steps[5].failed, steps[5].files));
    assert(steps[5].failed is None);
    assert(steps[6].after.stepped(steps[5].after, 7, steps[6].failed, steps[6].files));
    assert(after == steps[6].after);
    assert(after.rooms.state == steps[5].after.rooms.state);
    crate::state_rebuild::lemma_rebuilt_states_read_back(
        start.rooms.state.stateid_shorteventid,
        start.rooms.state.shortstatehash_statediff@,
        start.rooms.timeline,
    );
}

/// Migration idempotence: migrating a second time, after a migration that
/// went through, changes nothing and moves no file.
pub proof fn lemma_migration_idempotent(
    start: Database,
    first: Seq<Step>,
    once: Database,
    files_once: Seq<(Seq<u8>, Seq<u8>)>,
    second: Seq<Step>,
    twice: Database,
    failed: Option<Error>,
    files_twice: Seq<(Seq<u8>, Seq<u8>)>,
)
    requires
        start.is_run(first, once, None, files_once),
        once.is_run(second, twice, failed, files_twice),
    ensures
        twice == once,
        failed is None,
        files_twice.len() == 0,
{
    let last = first.len() - 1;
    assert(version_of(once.globals.globals@) matches Some(version) && version >= LATEST_VERSION)
        by {
        reveal(Database::stepped);
        reveal(Database::is_run);
        assert(first[last].after.stepped(
            start.before_step(first, last),
            (last + 1) as u64,
            first[last].failed,
            first[last].files,
        ));
    }
    lemma_run_repeats(once, second, twice, failed, files_twice, second.len() as int);
    if second.len() >= 3 {
        lemma_run_repeats(once, second, twice, failed, files_twice, 3);
    }
    reveal(Database::is_run);
}

impl Database {
    /// Brings the database up to the latest schema version, step by step. A
    /// step that fails ends the migration and leaves the version as it was
    /// before the step, so that the step is taken again at the next start.
    /// Returns, with the outcome, the files that were moved out of the
    /// media table, which belong in files of their own.
    pub fn run_migrations(&mut self) -> (r: (Vec<(Vec<u8>, Vec<u8>)>, Result<(), Error>))
        requires
            old(self).wf(),
            old(self).counter_fits(),
        ensures
            final(self).wf(),
            exists|steps: Seq<Step>| #[trigger]
                old(self).is_run(steps, *final(self), error_of(r.1), rows_of(r.0@)),
    {
        let mut files: Vec<(Vec<u8>, Vec<u8>)> = Vec::new();
        let mut target: u64 = 1;
        let ghost mut steps: Seq<Step> = Seq::empty();
        proof {
            assert(rows_of(files@) =~= Seq::empty());
            lemma_partial_start(*old(self));
        }
        while target <= 7
            invariant
                1 <= target <= 8,
                self.wf(),
                steps.len() == target - 1,
                partial_run(*old(self), steps, *self),
                rows_of(files@) == run_files(steps),
                target <= 7 ==> self.counter_fits(),
            decreases 8 - target,
        {
            let ghost mid = *self;
            let ghost before = steps;
            let r = self.migrate_step(target);
            proof {
                lemma_partial_step(
                    *old(self),
                    before,
                    mid,
                    *self,
                    error_of_files(r),
                    files_of(r),
                );
                steps = before.push(
                    Step { after: *self, failed: error_of_files(r), files: files_of(r) },
                );
            }
            match r {
                Ok(moved) => {
                    if target == 3 {
                        files = moved;
                    }
                },
                Err(e) => {
                    let result = (files, Err(e));
                    proof {
                        assert(error_of(result.1) == Some(e));
                        assert(old(self).is_run(
                            steps,
                            *self,
                            error_of(result.1),
                            rows_of(result.0@),
                        ));
                    }
                    return result;
                },
            }
            target = target + 1;
        }
        let result = (files, Ok(()));
        proof {
            lemma_partial_done(*old(self), steps, *self);
            assert(error_of(result.1) == None::<Error>);
            assert(old(self).is_run(steps, *self, error_of(result.1), rows_of(result.0@)));
        }
        result
    }
}


/// What was stored: for each tree, by its name, its rows.
pub type Stored = Vec<(String, Vec<(Vec<u8>, Vec<u8>)>)>;

/// The rows stored for the tree `name`: those of the first entry with that
/// name, and none where there is no such entry.
pub open spec fn stored_rows(stored: Seq<(String, Vec<(Vec<u8>, Vec<u8>)>)>, name: Seq<char>) -> Seq<
    (Seq<u8>, Seq<u8>),
>
    decreases stored.len(),
{
    if stored.len() == 0 {
        Seq::empty()
    } else if stored[0].0@ == name {
        rows_of(stored[0].1@)
    } else {
        stored_rows(stored.skip(1), name)
    }
}

/// What the tree `name` holds when it is opened.
pub open spec fn opened(stored: Seq<(String, Vec<(Vec<u8>, Vec<u8>)>)>, name: Seq<char>) -> Map<
    Seq<u8>,
    Seq<u8>,
> {
    put_all(Map::empty(), stored_rows(stored, name))
}

/// Opens the tree `name`: it holds what was stored for it and nobody
/// watches it. A tree that was never stored is empty.
pub fn open_tree(stored: &Stored, name: &str) -> (t: Tree)
    ensures
        t.wf(),
        t@ == opened(stored@, name@),
        t.watch() == Watch::idle(),
{
    let mut i: usize = 0;
    assert(stored@.skip(0) =~= stored@);
    while i < stored.len()
        invariant
            i <= stored@.len(),
            stored_rows(stored@, name@) == stored_rows(stored@.skip(i as int), name@),
        decreases stored@.len() - i,
    {
        assert(stored@.skip(i as int)[0] == stored@[i as int]);
        if str_eq(stored[i].0.as_str(), name) {
            return Tree::from_rows(&stored[i].1);
        }
        assert(stored@.skip(i as int).skip(1) =~= stored@.skip(i + 1));
        i = i + 1;
    }
    Tree::new()
}

impl Database {
    /// The database as it is assembled from what was stored, before it is
    /// migrated: every tree holds what was stored under its name, and the
    /// tree `global` as [`Globals::load`] leaves it, with a signing key pair
    /// that is kept, or made where none was stored, or deleted where it
    /// cannot be read.
    pub open spec fn assembled(
        &self,
        config: Config,
        stored: Seq<(String, Vec<(Vec<u8>, Vec<u8>)>)>,
    ) -> bool {
        &&& self.wf()
        &&& self.globals.config == config
        &&& self.globals.servertimeout_signingkey@ == opened(stored, "server_signingkeys"@)
        &&& self.globals.globals@.remove(crate::globals::keypair_key()) == opened(
            stored,
            "global"@,
        ).remove(crate::globals::keypair_key())
        &&& self.globals.has_keypair() == self.globals.globals@.contains_key(
            crate::globals::keypair_key(),
        )
        &&& self.globals.has_keypair() && opened(stored, "global"@).contains_key(
            crate::globals::keypair_key(),
        ) ==> self.globals.globals@ == opened(stored, "global"@)
        &&& opened(stored, "global"@).contains_key(crate::globals::keypair_key())
            ==> self.globals.has_keypair() == (crate::globals::keypair_loads(
            opened(stored, "global"@)[crate::globals::keypair_key()],
        ) is Ok)
        &&& !opened(stored, "global"@).contains_key(crate::globals::keypair_key())
            && self.globals.has_keypair() ==> exists|version: Seq<char>, document: Seq<u8>|
            crate::utils::is_random_string(version, 8) && self.globals.globals@ == opened(
                stored,
                "global"@,
            ).insert(
                crate::globals::keypair_key(),
                #[trigger] crate::globals::keypair_bytes(version, document),
            )
        &&& self.users.userid_password@ == opened(stored, "userid_password"@)
        &&& self.users.userdeviceid_token@ == opened(stored, "userdeviceid_token"@)
        &&& self.users.userdeviceid_metadata@ == opened(stored, "userdeviceid_metadata"@)
        &&& self.users.userid_devicelistversion@ == opened(stored, "userid_devicelistversion"@)
        &&& self.users.token_userdeviceid@ == opened(stored, "token_userdeviceid"@)
        &&& self.users.todeviceid_events@ == opened(stored, "todeviceid_events"@)
        &&& self.user_keys.keychangeid_userid@ == opened(stored, "keychangeid_userid"@)
        &&& self.user_keys.userid_lastonetimekeyupdate@ == opened(
            stored,
            "userid_lastonetimekeyupdate"@,
        )
        &&& self.uiaa.view() == Map::<crate::uiaa::SessionKey, crate::uiaa::UiaaInfoView>::empty()
        &&& self.rooms.membership.userroomid_joined@ == opened(stored, "userroomid_joined"@)
        &&& self.rooms.membership.roomuserid_joined@ == opened(stored, "roomuserid_joined"@)
        &&& self.rooms.membership.roomuseroncejoinedids@ == opened(
            stored,
            "roomuseroncejoinedids"@,
        )
        &&& self.rooms.membership.userroomid_invitestate@ == opened(
            stored,
            "userroomid_invitestate"@,
        )
        &&& self.rooms.membership.roomuserid_invitecount@ == opened(
            stored,
            "roomuserid_invitecount"@,
        )
        &&& self.rooms.membership.userroomid_leftstate@ == opened(stored, "userroomid_leftstate"@)
        &&& self.rooms.membership.roomuserid_leftcount@ == opened(stored, "roomuserid_leftcount"@)
        &&& self.rooms.servers.roomserverids@ == opened(stored, "roomserverids"@)
        &&& self.rooms.servers.serverroomids@ == opened(stored, "serverroomids"@)
        &&& self.rooms.timeline.pduid_pdu@ == opened(stored, "pduid_pdu"@)
        &&& self.rooms.timeline.eventid_pduid@ == opened(stored, "eventid_pduid"@)
        &&& self.rooms.timeline.tokenids@ == opened(stored, "tokenids"@)
        &&& self.rooms.timeline.eventid_outlierpdu@ == opened(stored, "eventid_outlierpdu"@)
        &&& self.rooms.timeline.shorteventid_eventid@ == opened(stored, "shorteventid_eventid"@)
        &&& self.rooms.timeline.eventid_shorteventid@ == opened(stored, "eventid_shorteventid"@)
        &&& self.rooms.timeline.roomid_pduleaves@ == opened(stored, "roomid_pduleaves"@)
        &&& self.rooms.state.statekey_shortstatekey@ == opened(stored, "statekey_shortstatekey"@)
        &&& self.rooms.state.shorteventid_shortstatehash@ == opened(
            stored,
            "shorteventid_shortstatehash"@,
        )
        &&& self.rooms.state.statehash_shortstatehash@ == opened(
            stored,
            "statehash_shortstatehash"@,
        )
        &&& self.rooms.shortids.roomid_shortroomid@ == opened(stored, "roomid_shortroomid"@)
        &&& self.rooms.shortids.shortroomid_roomid@ == opened(stored, "shortroomid_roomid"@)
        &&& self.rooms.state.stateid_shorteventid@ == opened(stored, "stateid_shorteventid"@)
        &&& self.rooms.state.shortstatehash_statediff@ == opened(
            stored,
            "shortstatehash_statediff"@,
        )
        &&& self.rooms.state.roomid_shortstatehash@ == opened(stored, "roomid_shortstatehash"@)
        &&& self.rooms.edus.readreceiptid_readreceipt@ == opened(
            stored,
            "readreceiptid_readreceipt"@,
        )
        &&& self.rooms.edus.roomid_lasttypingupdate@ == opened(stored, "roomid_lasttypingupdate"@)
        &&& self.rooms.notifications.userroomid_notificationcount@ == opened(
            stored,
            "userroomid_notificationcount"@,
        )
        &&& self.rooms.notifications.userroomid_highlightcount@ == opened(
            stored,
            "userroomid_highlightcount"@,
        )
        &&& self.account_data.roomuserdataid_accountdata@ == opened(
            stored,
            "roomuserdataid_accountdata"@,
        )
        &&& self.account_data.roomusertype_roomuserdataid@ == opened(
            stored,
            "roomusertype_roomuserdataid"@,
        )
        &&& self.media.mediaid_file@ == opened(stored, "mediaid_file"@)
    }

    /// What loading makes of a database assembled as `self`: it is left as
    /// it is, and an error reported, where it has no signing key pair or
    /// where the counter has not enough values left for the migration; else
    /// it is migrated in the steps `steps`.
    pub open spec fn loaded_as(
        &self,
        steps: Seq<Step>,
        config: Config,
        stored: Seq<(String, Vec<(Vec<u8>, Vec<u8>)>)>,
        after: Database,
        files: Seq<(Seq<u8>, Seq<u8>)>,
        outcome: Result<(), Error>,
    ) -> bool {
        &&& self.assembled(config, stored)
        &&& if !self.globals.has_keypair() {
            after == *self && outcome is Err && files.len() == 0 && (opened(
                stored,
                "global"@,
            ).contains_key(crate::globals::keypair_key()) ==> outcome
                == crate::globals::keypair_loads(
                opened(stored, "global"@)[crate::globals::keypair_key()],
            ))
        } else if !crate::globals::counter_readable(self.globals.globals@) {
            after == *self && outcome == Err::<(), Error>(crate::globals::count_fault())
                && files.len() == 0
        } else if !self.counter_fits() {
            after == *self && outcome == Err::<(), Error>(
                Error::BadDatabase("Counter is exhausted."),
            ) && files.len() == 0
        } else {
            self.is_run(steps, after, error_of(outcome), files)
        }
    }

    /// Load an existing database or create a new one: assembles the
    /// database from what was stored and brings it up to the latest schema
    /// version. Returns the database as it is then, the files that the
    /// migration moved out of the media table, and the outcome.
    ///
    /// A stored signing key pair that can be split and is accepted is kept,
    /// and the database is migrated. The database is not migrated, and the
    /// outcome is an error, where it has no signing key pair, where the
    /// counter cannot be read, or where the counter has not enough values
    /// left for the migration.
    pub fn load_or_create(config: Config, stored: &Stored) -> (r: (
        Database,
        Vec<(Vec<u8>, Vec<u8>)>,
        Result<(), Error>,
    ))
        ensures
            r.0.wf(),
            exists|start: Database, steps: Seq<Step>| #[trigger]
                start.loaded_as(steps, config, stored@, r.0, rows_of(r.1@), r.2),
    {
        let (globals, loaded) = Globals::load(
            open_tree(stored, "global"),
            open_tree(stored, "server_signingkeys"),
            config,
        );
        let mut db = Database {
            globals,
            users: Users {
                userid_password: open_tree(stored, "userid_password"),
                userdeviceid_token: open_tree(stored, "userdeviceid_token"),
                userdeviceid_metadata: open_tree(stored, "userdeviceid_metadata"),
                userid_devicelistversion: open_tree(stored, "userid_devicelistversion"),
                token_userdeviceid: open_tree(stored, "token_userdeviceid"),
                todeviceid_events: open_tree(stored, "todeviceid_events"),
            },
            user_keys: UserKeys {
                keychangeid_userid: open_tree(stored, "keychangeid_userid"),
                userid_lastonetimekeyupdate: open_tree(stored, "userid_lastonetimekeyupdate"),
            },
            uiaa: Uiaa::new(),
            rooms: Rooms {
                membership: Membership {
                    userroomid_joined: open_tree(stored, "userroomid_joined"),
                    roomuserid_joined: open_tree(stored, "roomuserid_joined"),
                    roomuseroncejoinedids: open_tree(stored, "roomuseroncejoinedids"),
                    userroomid_invitestate: open_tree(stored, "userroomid_invitestate"),
                    roomuserid_invitecount: open_tree(stored, "roomuserid_invitecount"),
                    userroomid_leftstate: open_tree(stored, "userroomid_leftstate"),
                    roomuserid_leftcount: open_tree(stored, "roomuserid_leftcount"),
                },
                servers: RoomServers {
                    roomserverids: open_tree(stored, "roomserverids"),
                    serverroomids: open_tree(stored, "serverroomids"),
                },
                timeline: Timeline {
                    pduid_pdu: open_tree(stored, "pduid_pdu"),
                    eventid_pduid: open_tree(stored, "eventid_pduid"),
                    tokenids: open_tree(stored, "tokenids"),
                    eventid_outlierpdu: open_tree(stored, "eventid_outlierpdu"),
                    shorteventid_eventid: open_tree(stored, "shorteventid_eventid"),
                    eventid_shorteventid: open_tree(stored, "eventid_shorteventid"),
                    roomid_pduleaves: open_tree(stored, "roomid_pduleaves"),
                },
                shortids: ShortRoomIds {
                    roomid_shortroomid: open_tree(stored, "roomid_shortroomid"),
                    shortroomid_roomid: open_tree(stored, "shortroomid_roomid"),
                },
                state: RoomState {
                    stateid_shorteventid: open_tree(stored, "stateid_shorteventid"),
                    shortstatehash_statediff: open_tree(stored, "shortstatehash_statediff"),
                    roomid_shortstatehash: open_tree(stored, "roomid_shortstatehash"),
                    statekey_shortstatekey: open_tree(stored, "statekey_shortstatekey"),
                    shorteventid_shortstatehash: open_tree(stored, "shorteventid_shortstatehash"),
                    statehash_shortstatehash: open_tree(stored, "statehash_shortstatehash"),
                },
                edus: RoomEdus {
                    readreceiptid_readreceipt: open_tree(stored, "readreceiptid_readreceipt"),
                    roomid_lasttypingupdate: open_tree(stored, "roomid_lasttypingupdate"),
                },
                notifications: Notifications {
                    userroomid_notificationcount: open_tree(stored, "userroomid_notificationcount"),
                    userroomid_highlightcount: open_tree(stored, "userroomid_highlightcount"),
                },
            },
            account_data: AccountData {
                roomuserdataid_accountdata: open_tree(stored, "roomuserdataid_accountdata"),
                roomusertype_roomuserdataid: open_tree(stored, "roomusertype_roomuserdataid"),
            },
            media: Media { mediaid_file: open_tree(stored, "mediaid_file") },
        };
        let ghost start = db;
        proof {
            let key = crate::globals::keypair_key();
            assert(start.globals.globals@.remove(key) =~= opened(stored@, "global"@).remove(key));
        }
        assert(start.assembled(config, stored@));
        match loaded {
            Ok(()) => {},
            Err(e) => {
                let result = (db, Vec::new(), Err(e));
                proof {
                    assert(start.loaded_as(
                        Seq::<Step>::empty(),
                        config,
                        stored@,
                        result.0,
                        rows_of(result.1@),
                        result.2,
                    ));
                }
                return result;
            },
        }
        let count: u64 = match db.globals.current_count() {
            Ok(count) => count,
            Err(e) => {
                let result = (db, Vec::new(), Err(e));
                proof {
                    assert(start.loaded_as(
                        Seq::<Step>::empty(),
                        config,
                        stored@,
                        result.0,
                        rows_of(result.1@),
                        result.2,
                    ));
                }
                return result;
            },
        };
        let rooms = db.rooms.state.roomid_shortstatehash.len();
        if rooms as u64 as usize != rooms || count > u64::MAX - rooms as u64 {
            let result = (db, Vec::new(), Err(Error::bad_database("Counter is exhausted.")));
            proof {
                assert(!start.counter_fits());
                assert(start.loaded_as(
                    Seq::<Step>::empty(),
                    config,
                    stored@,
                    result.0,
                    rows_of(result.1@),
                    result.2,
                ));
            }
            return result;
        }
        assert(start.counter_fits());
        let (files, outcome) = db.run_migrations();
        let result = (db, files, outcome);
        proof {
            let steps = choose|steps: Seq<Step>| #[trigger]
                start.is_run(steps, result.0, error_of(result.2), rows_of(result.1@));
            assert(start.loaded_as(
                steps,
                config,
                stored@,
                result.0,
                rows_of(result.1@),
                result.2,
            ));
        }
        result
    }
}


/// Loading a database that was migrated changes nothing: where what was
/// stored is at the latest version already, with a key pair that is
/// accepted and a counter that can be read, the database is as it was
/// assembled from what was stored, no file is moved, and no error comes.
pub proof fn lemma_load_of_migrated(
    start: Database,
    steps: Seq<Step>,
    config: Config,
    stored: Seq<(String, Vec<(Vec<u8>, Vec<u8>)>)>,
    after: Database,
    files: Seq<(Seq<u8>, Seq<u8>)>,
    outcome: Result<(), Error>,
)
    requires
        start.loaded_as(steps, config, stored, after, files, outcome),
        start.globals.has_keypair(),
        start.counter_fits(),
        version_of(start.globals.globals@) matches Some(version) && version >= LATEST_VERSION,
    ensures
        after == start,
        outcome is Ok,
        files.len() == 0,
{
    lemma_run_repeats(start, steps, after, error_of(outcome), files, steps.len() as int);
    if steps.len() >= 3 {
        lemma_run_repeats(start, steps, after, error_of(outcome), files, 3);
    }
    reveal(Database::is_run);
}

/// Loading gives every legacy state back: where what was stored is of a
/// version before 6 and holds no layer yet, and loading ends without an
/// error, each state that the legacy rows spell is read back from the
/// layers as it stood there, over at most four layers.
pub proof fn lemma_loaded_states_read_back(
    start: Database,
    steps: Seq<Step>,
    config: Config,
    stored: Seq<(String, Vec<(Vec<u8>, Vec<u8>)>)>,
    after: Database,
    files: Seq<(Seq<u8>, Seq<u8>)>,
)
    requires
        start.loaded_as(steps, config, stored, after, files, Ok(())),
        version_of(start.globals.globals@) matches Some(version) && version <= 5,
        start.rooms.state.shortstatehash_statediff@ == Map::<Seq<u8>, Seq<u8>>::empty(),
    ensures
        crate::state_laws::store_sound(after.rooms.state.shortstatehash_statediff@),
        forall|i: int|
            0 <= i < crate::state_rebuild::legacy_states(
                listing(start.rooms.state.stateid_shorteventid@, every_key()),
            ).len() ==> crate::state_rebuild::reads_back(
                after.rooms.state.shortstatehash_statediff@,
                #[trigger] crate::state_rebuild::legacy_states(
                    listing(start.rooms.state.stateid_shorteventid@, every_key()),
                )[i],
            ),
{
    lemma_migrated_states_read_back(start, steps, after, files);
}

/// The ids of the rooms that the rows of one user in the joined index
/// name, leaving out what is not UTF-8.
pub open spec fn synced_rooms(rows: Seq<(Seq<u8>, Seq<u8>)>) -> Seq<Seq<u8>>
    decreases rows.len(),
{
    if rows.len() == 0 {
        Seq::empty()
    } else if valid_utf8(last_field(rows.last().0)) {
        synced_rooms(rows.drop_last()).push(last_field(rows.last().0))
    } else {
        synced_rooms(rows.drop_last())
    }
}

/// The short ids of the rooms, in the eight bytes that are stored for them:
/// the beginning of the key of every event of the room. A room without a
/// short id that can be read has no event yet, and is left out.
pub open spec fn short_prefixes(ids: Seq<Seq<u8>>, roomid_shortroomid: Map<Seq<u8>, Seq<u8>>) -> Seq<
    Seq<u8>,
>
    decreases ids.len(),
{
    if ids.len() == 0 {
        Seq::empty()
    } else {
        let rest = short_prefixes(ids.drop_last(), roomid_shortroomid);
        let id = ids.last();
        if roomid_shortroomid.contains_key(id) && roomid_shortroomid[id].len() == 8 {
            rest.push(roomid_shortroomid[id])
        } else {
            rest
        }
    }
}

/// Who has registered on each of the prefixes waits on each of them.
pub proof fn lemma_register_each_waits(watch: Watch, prefixes: Seq<Seq<u8>>, waiter: u64, at: int)
    requires
        0 <= at < prefixes.len(),
    ensures
        watch.register_each(prefixes, waiter).waiting.contains((prefixes[at], waiter)),
    decreases prefixes.len(),
{
    if at < prefixes.len() - 1 {
        lemma_register_each_waits(watch, prefixes.drop_last(), waiter, at);
    }
}

/// An event that is stored in a room wakes the sync that watches the room:
/// the key of the event begins with the short id of its room, on which the
/// sync has registered.
pub proof fn lemma_stored_event_wakes(
    watch: Watch,
    prefixes: Seq<Seq<u8>>,
    waiter: u64,
    at: int,
    shortroomid: u64,
    count: u64,
)
    requires
        0 <= at < prefixes.len(),
        prefixes[at] == be_bytes(shortroomid as nat, 8),
    ensures
        watch.register_each(prefixes, waiter).fire(
            crate::events::pdu_id(shortroomid, count),
        ).woken.contains(waiter),
{
    lemma_register_each_waits(watch, prefixes, waiter, at);
    let key = crate::events::pdu_id(shortroomid, count);
    let prefix = be_bytes(shortroomid as nat, 8);
    assert(key.subrange(0, prefix.len() as int) =~= prefix);
    assert(prefix.is_prefix_of(key));
}

/// Each id followed by a separator.
pub open spec fn each_with_separator(ids: Seq<Seq<u8>>) -> Seq<Seq<u8>> {
    Seq::new(ids.len(), |i: int| ids[i].push(SEPARATOR))
}

/// Each id followed by a separator and by `tail`.
pub open spec fn each_followed_by(ids: Seq<Seq<u8>>, tail: Seq<u8>) -> Seq<Seq<u8>> {
    Seq::new(ids.len(), |i: int| ids[i].push(SEPARATOR) + tail)
}

/// Registers the waiter on each of the prefixes.
fn register_each(tree: &mut Tree, prefixes: &Vec<Vec<u8>>, waiter: u64)
    requires
        old(tree).wf(),
    ensures
        final(tree).wf(),
        final(tree)@ == old(tree)@,
        final(tree).watch() == old(tree).watch().register_each(keys_view(prefixes@), waiter),
{
    let ghost list = keys_view(prefixes@);
    let mut i: usize = 0;
    assert(list.take(0) =~= Seq::empty());
    while i < prefixes.len()
        invariant
            i <= prefixes@.len(),
            list == keys_view(prefixes@),
            tree.wf(),
            tree@ == old(tree)@,
            tree.watch() == old(tree).watch().register_each(list.take(i as int), waiter),
        decreases prefixes@.len() - i,
    {
        proof {
            assert(list.take(i + 1).drop_last() =~= list.take(i as int));
            assert(list.take(i + 1).last() == prefixes@[i as int]@);
        }
        tree.watch_prefix(prefixes[i].as_slice(), waiter);
        i = i + 1;
    }
    assert(list.take(i as int) =~= list);
}

/// A tree after `waiter` has registered on `prefix`: it holds what it held.
pub open spec fn registered(after: Tree, before: Tree, prefix: Seq<u8>, waiter: u64) -> bool {
    after.wf() == before.wf() && after@ == before@ && after.watch() == before.watch().register(
        prefix,
        waiter,
    )
}

impl Database {
    /// The rooms whose changes a sync of the user waits for.
    pub open spec fn rooms_to_watch(&self, user_id: Seq<char>) -> Seq<Seq<u8>> {
        synced_rooms(
            listing(self.rooms.membership.userroomid_joined@, with_prefix(user_prefix(user_id))),
        )
    }

    /// Registers `waiter` to be woken as soon as anything changes that a
    /// sync of the user's device would report: in the tables of the user,
    /// under the prefix of the user or of the device; in the tables of the
    /// rooms, under the prefix of each room the user is joined to, which for
    /// the events is the short id of the room; and by the global rotate
    /// signal. No table's contents change.
    pub fn watch(&mut self, user_id: &str, device_id: &str, waiter: u64)
        requires
            old(self).wf(),
        ensures
            final(self).wf(),
            final(self).globals.globals == old(self).globals.globals,
            final(self).globals.config == old(self).globals.config,
            final(self).globals.servertimeout_signingkey == old(self).globals.servertimeout_signingkey,
            final(self).globals.has_keypair() == old(self).globals.has_keypair(),
            final(self).globals.rotate.waiting() == old(self).globals.rotate.waiting().insert(
                waiter,
            ),
            final(self).uiaa == old(self).uiaa,
            final(self).media == old(self).media,
            final(self).rooms.servers == old(self).rooms.servers,
            final(self).rooms.shortids == old(self).rooms.shortids,
            final(self).rooms.state == old(self).rooms.state,
            final(self).account_data.roomuserdataid_accountdata == old(self).account_data.roomuserdataid_accountdata,
            final(self).users.userid_password == old(self).users.userid_password,
            final(self).users.userdeviceid_token == old(self).users.userdeviceid_token,
            final(self).users.userdeviceid_metadata == old(self).users.userdeviceid_metadata,
            final(self).users.userid_devicelistversion == old(self).users.userid_devicelistversion,
            final(self).users.token_userdeviceid == old(self).users.token_userdeviceid,
            final(self).rooms.membership.roomuserid_joined == old(self).rooms.membership.roomuserid_joined,
            final(self).rooms.membership.roomuseroncejoinedids == old(self).rooms.membership.roomuseroncejoinedids,
            final(self).rooms.membership.roomuserid_invitecount == old(self).rooms.membership.roomuserid_invitecount,
            final(self).rooms.membership.roomuserid_leftcount == old(self).rooms.membership.roomuserid_leftcount,
            final(self).rooms.timeline.eventid_pduid == old(self).rooms.timeline.eventid_pduid,
            final(self).rooms.timeline.tokenids == old(self).rooms.timeline.tokenids,
            final(self).rooms.timeline.eventid_outlierpdu == old(self).rooms.timeline.eventid_outlierpdu,
            final(self).rooms.timeline.shorteventid_eventid == old(self).rooms.timeline.shorteventid_eventid,
            final(self).rooms.timeline.eventid_shorteventid == old(self).rooms.timeline.eventid_shorteventid,
            final(self).rooms.timeline.roomid_pduleaves == old(self).rooms.timeline.roomid_pduleaves,
            registered(
                final(self).users.todeviceid_events,
                old(self).users.todeviceid_events,
                device_key(user_id@, device_id@).push(SEPARATOR),
                waiter,
            ),
            registered(
                final(self).rooms.membership.userroomid_joined,
                old(self).rooms.membership.userroomid_joined,
                user_prefix(user_id@),
                waiter,
            ),
            registered(
                final(self).rooms.membership.userroomid_invitestate,
                old(self).rooms.membership.userroomid_invitestate,
                user_prefix(user_id@),
                waiter,
            ),
            registered(
                final(self).rooms.membership.userroomid_leftstate,
                old(self).rooms.membership.userroomid_leftstate,
                user_prefix(user_id@),
                waiter,
            ),
            registered(
                final(self).rooms.notifications.userroomid_notificationcount,
                old(self).rooms.notifications.userroomid_notificationcount,
                user_prefix(user_id@),
                waiter,
            ),
            registered(
                final(self).rooms.notifications.userroomid_highlightcount,
                old(self).rooms.notifications.userroomid_highlightcount,
                user_prefix(user_id@),
                waiter,
            ),
            registered(
                final(self).user_keys.userid_lastonetimekeyupdate,
                old(self).user_keys.userid_lastonetimekeyupdate,
                encode_utf8(user_id@),
                waiter,
            ),
            final(self).rooms.timeline.pduid_pdu@ == old(self).rooms.timeline.pduid_pdu@,
            final(self).rooms.timeline.pduid_pdu.watch() == old(
                self,
            ).rooms.timeline.pduid_pdu.watch().register_each(
                short_prefixes(
                    old(self).rooms_to_watch(user_id@),
                    old(self).rooms.shortids.roomid_shortroomid@,
                ),
                waiter,
            ),
            final(self).rooms.edus.roomid_lasttypingupdate@ == old(self).rooms.edus.roomid_lasttypingupdate@,
            final(self).rooms.edus.roomid_lasttypingupdate.watch() == old(self).rooms.edus.roomid_lasttypingupdate.watch().register_each(
                old(self).rooms_to_watch(user_id@),
                waiter,
            ),
            final(self).rooms.edus.readreceiptid_readreceipt@ == old(self).rooms.edus.readreceiptid_readreceipt@,
            final(self).rooms.edus.readreceiptid_readreceipt.watch() == old(self).rooms.edus.readreceiptid_readreceipt.watch().register_each(
                each_with_separator(old(self).rooms_to_watch(user_id@)),
                waiter,
            ),
            final(self).user_keys.keychangeid_userid@ == old(self).user_keys.keychangeid_userid@,
            final(self).user_keys.keychangeid_userid.watch() == old(self).user_keys.keychangeid_userid.watch().register_each(
                each_with_separator(old(self).rooms_to_watch(user_id@)),
                waiter,
            ).register(user_prefix(user_id@), waiter),
            final(self).account_data.roomusertype_roomuserdataid@ == old(self).account_data.roomusertype_roomuserdataid@,
            final(self).account_data.roomusertype_roomuserdataid.watch() == old(self).account_data.roomusertype_roomuserdataid.watch().register_each(
                each_followed_by(old(self).rooms_to_watch(user_id@), user_prefix(user_id@)),
                waiter,
            ).register(seq![SEPARATOR] + user_prefix(user_id@), waiter),
    {
        let userid_bytes = to_vec(user_id.as_bytes());
        let userid_prefix = user_prefix_of(user_id);
        let mut userdeviceid_prefix = to_vec(userid_prefix.as_slice());
        append(&mut userdeviceid_prefix, device_id.as_bytes());
        userdeviceid_prefix.push(SEPARATOR);
        assert(userdeviceid_prefix@ =~= device_key(user_id@, device_id@).push(SEPARATOR));
        // Return when *any* user changed his key
        self.users.todeviceid_events.watch_prefix(userdeviceid_prefix.as_slice(), waiter);
        self.rooms.membership.userroomid_joined.watch_prefix(userid_prefix.as_slice(), waiter);
        self.rooms.membership.userroomid_invitestate.watch_prefix(userid_prefix.as_slice(), waiter);
        self.rooms.membership.userroomid_leftstate.watch_prefix(userid_prefix.as_slice(), waiter);
        self.rooms.notifications.userroomid_notificationcount.watch_prefix(
            userid_prefix.as_slice(),
            waiter,
        );
        self.rooms.notifications.userroomid_highlightcount.watch_prefix(
            userid_prefix.as_slice(),
            waiter,
        );
        // Events for rooms we are in
        let rows = self.rooms.membership.userroomid_joined.scan_prefix(userid_prefix.as_slice());
        let ghost list = rows_of(rows@);
        let mut room_ids: Vec<Vec<u8>> = Vec::new();
        let mut room_prefixes: Vec<Vec<u8>> = Vec::new();
        let mut roomuser_prefixes: Vec<Vec<u8>> = Vec::new();
        let mut short_ids: Vec<Vec<u8>> = Vec::new();
        let ghost shorts = self.rooms.shortids.roomid_shortroomid@;
        let mut i: usize = 0;
        proof {
            assert(list.take(0) =~= Seq::empty());
            assert(keys_view(room_ids@) =~= Seq::empty());
            assert(keys_view(short_ids@) =~= Seq::empty());
        }
        while i < rows.len()
            invariant
                i <= rows@.len(),
                list == rows_of(rows@),
                userid_prefix@ == user_prefix(user_id@),
                keys_view(room_ids@) == synced_rooms(list.take(i as int)),
                self.rooms.shortids.roomid_shortroomid.wf(),
                self.rooms.shortids.roomid_shortroomid@ == shorts,
                keys_view(short_ids@) == short_prefixes(keys_view(room_ids@), shorts),
                room_prefixes@.len() == room_ids@.len(),
                roomuser_prefixes@.len() == room_ids@.len(),
                forall|k: int|
                    0 <= k < room_ids@.len() ==> (#[trigger] room_prefixes@[k])@
                        == room_ids@[k]@.push(SEPARATOR),
                forall|k: int|
                    0 <= k < room_ids@.len() ==> (#[trigger] roomuser_prefixes@[k])@
                        == room_ids@[k]@.push(SEPARATOR) + user_prefix(user_id@),
            decreases rows@.len() - i,
        {
            proof {
                assert(list.take(i + 1).drop_last() =~= list.take(i as int));
                assert(list.take(i + 1).last() == (rows@[i as int].0@, rows@[i as int].1@));
            }
            let room_id = last_field_of(rows[i].0.as_slice());
            if string_from_bytes(room_id.as_slice()).is_ok() {
                let ghost before = keys_view(room_ids@);
                let mut roomid_prefix = to_vec(room_id.as_slice());
                roomid_prefix.push(SEPARATOR);
                let mut roomuser_prefix = to_vec(roomid_prefix.as_slice());
                append(&mut roomuser_prefix, userid_prefix.as_slice());
                let ghost shorts_before = keys_view(short_ids@);
                match self.rooms.shortids.roomid_shortroomid.get(room_id.as_slice()) {
                    Some(short_id) => {
                        if short_id.len() == 8 {
                            short_ids.push(short_id);
                            assert(keys_view(short_ids@) =~= shorts_before.push(
                                shorts[room_id@],
                            ));
                        }
                    },
                    None => {},
                }
                room_prefixes.push(roomid_prefix);
                roomuser_prefixes.push(roomuser_prefix);
                room_ids.push(room_id);
                assert(keys_view(room_ids@) =~= before.push(last_field(rows@[i as int].0@)));
                assert(keys_view(room_ids@).drop_last() =~= before);
            }
            i = i + 1;
        }
        proof {
            assert(list.take(i as int) =~= list);
            assert(keys_view(room_prefixes@) =~= each_with_separator(keys_view(room_ids@)));
            assert(keys_view(roomuser_prefixes@) =~= each_followed_by(
                keys_view(room_ids@),
                user_prefix(user_id@),
            ));
        }
        // PDUs
        register_each(&mut self.rooms.timeline.pduid_pdu, &short_ids, waiter);
        // EDUs
        register_each(&mut self.rooms.edus.roomid_lasttypingupdate, &room_ids, waiter);
        register_each(&mut self.rooms.edus.readreceiptid_readreceipt, &room_prefixes, waiter);
        // Key changes
        register_each(&mut self.user_keys.keychangeid_userid, &room_prefixes, waiter);
        // Room account data
        register_each(
            &mut self.account_data.roomusertype_roomuserdataid,
            &roomuser_prefixes,
            waiter,
        );
        let mut globaluserdata_prefix: Vec<u8> = vec![SEPARATOR];
        append(&mut globaluserdata_prefix, userid_prefix.as_slice());
        assert(globaluserdata_prefix@ =~= seq![SEPARATOR] + user_prefix(user_id@));
        self.account_data.roomusertype_roomuserdataid.watch_prefix(
            globaluserdata_prefix.as_slice(),
            waiter,
        );
        // More key changes (used when user is not joined to any rooms)
        self.user_keys.keychangeid_userid.watch_prefix(userid_prefix.as_slice(), waiter);
        // One time keys
        self.user_keys.userid_lastonetimekeyupdate.watch_prefix(userid_bytes.as_slice(), waiter);
        self.globals.rotate.watch(waiter);
    }
}

} // verus!
