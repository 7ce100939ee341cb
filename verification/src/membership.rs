//! Who is in which room: the joined, invited and left indexes.
//!
//! Each index is kept twice, keyed `user + 0xff + room` and
//! `room + 0xff + user`, so that it can be scanned by user and by room.

use crate::error::Error;
use crate::globals::{count_of, counter_key, counter_readable, is_count_fault, Globals};
use crate::tree::{listing, rows_of, with_prefix, Tree};
use crate::users::{ids_of, last_fields, user_prefix, user_prefix_of};
use crate::utils::{append, be_bytes, to_vec, u64_to_be_bytes, SEPARATOR};
use vstd::prelude::*;
use vstd::utf8::*;

verus! {

/// What a member event says of its user.
#[derive(Clone, Copy, Debug, PartialEq, Eq, Structural)]
pub enum MembershipState {
    Join,
    Invite,
    Leave,
    Ban,
}

/// The membership indexes.
pub struct Membership {
    pub userroomid_joined: Tree,
    pub roomuserid_joined: Tree,
    /// Who was ever joined; nothing is ever taken out of it.
    pub roomuseroncejoinedids: Tree,
    /// UserId + RoomId -> the stripped state the user was invited with
    pub userroomid_invitestate: Tree,
    /// RoomId + UserId -> the count at which the user was invited
    pub roomuserid_invitecount: Tree,
    pub userroomid_leftstate: Tree,
    /// RoomId + UserId -> the count at which the user left
    pub roomuserid_leftcount: Tree,
}

/// The key `first + 0xff + second` of a pair of ids.
pub open spec fn pair_key(first: Seq<char>, second: Seq<char>) -> Seq<u8> {
    encode_utf8(first).push(SEPARATOR) + encode_utf8(second)
}

/// What is stored for a user who left: an empty list of events.
pub open spec fn no_state() -> Seq<u8> {
    seq![0x5bu8, 0x5du8]
}

/// Membership exclusivity: no user is at once joined to, invited to or
/// gone from a room, in any two of the three.
pub open spec fn exclusive(
    joined: Map<Seq<u8>, Seq<u8>>,
    invited: Map<Seq<u8>, Seq<u8>>,
    left: Map<Seq<u8>, Seq<u8>>,
) -> bool {
    forall|key: Seq<u8>|
        !(#[trigger] joined.contains_key(key) && invited.contains_key(key)) && !(
        joined.contains_key(key) && left.contains_key(key)) && !(invited.contains_key(key)
            && left.contains_key(key))
}

/// The key `first + 0xff + second` of a pair of ids.
fn pair_key_of(first: &str, second: &str) -> (r: Vec<u8>)
    ensures
        r@ == pair_key(first@, second@),
{
    let mut key = to_vec(first.as_bytes());
    key.push(SEPARATOR);
    append(&mut key, second.as_bytes());
    key
}

impl Membership {
    /// The trees are well formed.
    pub open spec fn wf(&self) -> bool {
        &&& self.userroomid_joined.wf()
        &&& self.roomuserid_joined.wf()
        &&& self.roomuseroncejoinedids.wf()
        &&& self.userroomid_invitestate.wf()
        &&& self.roomuserid_invitecount.wf()
        &&& self.userroomid_leftstate.wf()
        &&& self.roomuserid_leftcount.wf()
    }

    /// Membership exclusivity holds of these indexes.
    pub open spec fn exclusive(&self) -> bool {
        exclusive(
            self.userroomid_joined@,
            self.userroomid_invitestate@,
            self.userroomid_leftstate@,
        )
    }

    /// No index holds a row, and nobody waits on any of them.
    pub open spec fn fresh(&self) -> bool {
        &&& self.userroomid_joined.fresh()
        &&& self.roomuserid_joined.fresh()
        &&& self.roomuseroncejoinedids.fresh()
        &&& self.userroomid_invitestate.fresh()
        &&& self.roomuserid_invitecount.fresh()
        &&& self.userroomid_leftstate.fresh()
        &&& self.roomuserid_leftcount.fresh()
    }

    /// Indexes without a member.
    pub fn new() -> (r: Membership)
        ensures
            r.wf(),
            r.fresh(),
            r.exclusive(),
            r.userroomid_joined@ == Map::<Seq<u8>, Seq<u8>>::empty(),
            r.userroomid_invitestate@ == Map::<Seq<u8>, Seq<u8>>::empty(),
            r.userroomid_leftstate@ == Map::<Seq<u8>, Seq<u8>>::empty(),
    {
        Membership {
            userroomid_joined: Tree::new(),
            roomuserid_joined: Tree::new(),
            roomuseroncejoinedids: Tree::new(),
            userroomid_invitestate: Tree::new(),
            roomuserid_invitecount: Tree::new(),
            userroomid_leftstate: Tree::new(),
            roomuserid_leftcount: Tree::new(),
        }
    }

    /// Records that the user is joined to the room, and no longer invited
    /// or gone.
    pub fn mark_joined(&mut self, room_id: &str, user_id: &str)
        requires
            old(self).wf(),
        ensures
            final(self).wf(),
            final(self).userroomid_joined@ == old(self).userroomid_joined@.insert(
                pair_key(user_id@, room_id@),
                Seq::<u8>::empty(),
            ),
            final(self).roomuserid_joined@ == old(self).roomuserid_joined@.insert(
                pair_key(room_id@, user_id@),
                Seq::<u8>::empty(),
            ),
            final(self).roomuseroncejoinedids@ == old(self).roomuseroncejoinedids@.insert(
                pair_key(user_id@, room_id@),
                Seq::<u8>::empty(),
            ),
            final(self).userroomid_invitestate@ == old(self).userroomid_invitestate@.remove(
                pair_key(user_id@, room_id@),
            ),
            final(self).roomuserid_invitecount@ == old(self).roomuserid_invitecount@.remove(
                pair_key(room_id@, user_id@),
            ),
            final(self).userroomid_leftstate@ == old(self).userroomid_leftstate@.remove(
                pair_key(user_id@, room_id@),
            ),
            final(self).roomuserid_leftcount@ == old(self).roomuserid_leftcount@.remove(
                pair_key(room_id@, user_id@),
            ),
            final(self).fired(*old(self), pair_key(user_id@, room_id@), pair_key(room_id@, user_id@)),
            final(self).roomuseroncejoinedids.watch() == old(self).roomuseroncejoinedids.watch().fire(
                pair_key(user_id@, room_id@),
            ),
            old(self).exclusive() ==> final(self).exclusive(),
    {
        let userroom_id = pair_key_of(user_id, room_id);
        let roomuser_id = pair_key_of(room_id, user_id);
        let empty: Vec<u8> = Vec::new();
        self.roomuseroncejoinedids.insert(userroom_id.as_slice(), empty.as_slice());
        self.userroomid_joined.insert(userroom_id.as_slice(), empty.as_slice());
        self.roomuserid_joined.insert(roomuser_id.as_slice(), empty.as_slice());
        self.userroomid_invitestate.remove(userroom_id.as_slice());
        self.roomuserid_invitecount.remove(roomuser_id.as_slice());
        self.userroomid_leftstate.remove(userroom_id.as_slice());
        self.roomuserid_leftcount.remove(roomuser_id.as_slice());
    }

    /// Each of the six indexes by user and by room has seen one mutation of
    /// the pair's key, which wakes whoever watches it.
    pub open spec fn fired(&self, before: Membership, userroom: Seq<u8>, roomuser: Seq<u8>) -> bool {
        &&& self.userroomid_joined.watch() == before.userroomid_joined.watch().fire(userroom)
        &&& self.roomuserid_joined.watch() == before.roomuserid_joined.watch().fire(roomuser)
        &&& self.userroomid_invitestate.watch() == before.userroomid_invitestate.watch().fire(
            userroom,
        )
        &&& self.roomuserid_invitecount.watch() == before.roomuserid_invitecount.watch().fire(
            roomuser,
        )
        &&& self.userroomid_leftstate.watch() == before.userroomid_leftstate.watch().fire(userroom)
        &&& self.roomuserid_leftcount.watch() == before.roomuserid_leftcount.watch().fire(roomuser)
    }

    /// Records that the user is invited to the room with the stripped state
    /// `invite_state`, and no longer joined or gone. `count` is the count of
    /// the invitation.
    pub fn mark_invited(&mut self, room_id: &str, user_id: &str, invite_state: &[u8], count: u64)
        requires
            old(self).wf(),
        ensures
            final(self).wf(),
            final(self).userroomid_invitestate@ == old(self).userroomid_invitestate@.insert(
                pair_key(user_id@, room_id@),
                invite_state@,
            ),
            final(self).roomuserid_invitecount@ == old(self).roomuserid_invitecount@.insert(
                pair_key(room_id@, user_id@),
                be_bytes(count as nat, 8),
            ),
            final(self).userroomid_joined@ == old(self).userroomid_joined@.remove(
                pair_key(user_id@, room_id@),
            ),
            final(self).roomuserid_joined@ == old(self).roomuserid_joined@.remove(
                pair_key(room_id@, user_id@),
            ),
            final(self).userroomid_leftstate@ == old(self).userroomid_leftstate@.remove(
                pair_key(user_id@, room_id@),
            ),
            final(self).roomuserid_leftcount@ == old(self).roomuserid_leftcount@.remove(
                pair_key(room_id@, user_id@),
            ),
            final(self).roomuseroncejoinedids == old(self).roomuseroncejoinedids,
            final(self).fired(*old(self), pair_key(user_id@, room_id@), pair_key(room_id@, user_id@)),
            old(self).exclusive() ==> final(self).exclusive(),
    {
        let userroom_id = pair_key_of(user_id, room_id);
        let roomuser_id = pair_key_of(room_id, user_id);
        self.userroomid_invitestate.insert(userroom_id.as_slice(), invite_state);
        self.roomuserid_invitecount.insert(roomuser_id.as_slice(), u64_to_be_bytes(count).as_slice());
        self.userroomid_joined.remove(userroom_id.as_slice());
        self.roomuserid_joined.remove(roomuser_id.as_slice());
        self.userroomid_leftstate.remove(userroom_id.as_slice());
        self.roomuserid_leftcount.remove(roomuser_id.as_slice());
    }

    /// Records that the user has left the room or was banned from it, and
    /// is no longer joined or invited. `count` is the count of the leaving.
    pub fn mark_left(&mut self, room_id: &str, user_id: &str, count: u64)
        requires
            old(self).wf(),
        ensures
            final(self).wf(),
            final(self).userroomid_leftstate@ == old(self).userroomid_leftstate@.insert(
                pair_key(user_id@, room_id@),
                no_state(),
            ),
            final(self).roomuserid_leftcount@ == old(self).roomuserid_leftcount@.insert(
                pair_key(room_id@, user_id@),
                be_bytes(count as nat, 8),
            ),
            final(self).userroomid_joined@ == old(self).userroomid_joined@.remove(
                pair_key(user_id@, room_id@),
            ),
            final(self).roomuserid_joined@ == old(self).roomuserid_joined@.remove(
                pair_key(room_id@, user_id@),
            ),
            final(self).userroomid_invitestate@ == old(self).userroomid_invitestate@.remove(
                pair_key(user_id@, room_id@),
            ),
            final(self).roomuserid_invitecount@ == old(self).roomuserid_invitecount@.remove(
                pair_key(room_id@, user_id@),
            ),
            final(self).roomuseroncejoinedids == old(self).roomuseroncejoinedids,
            final(self).fired(*old(self), pair_key(user_id@, room_id@), pair_key(room_id@, user_id@)),
            old(self).exclusive() ==> final(self).exclusive(),
    {
        let userroom_id = pair_key_of(user_id, room_id);
        let roomuser_id = pair_key_of(room_id, user_id);
        let nothing: Vec<u8> = vec![0x5bu8, 0x5du8];
        assert(nothing@ =~= no_state());
        self.userroomid_leftstate.insert(userroom_id.as_slice(), nothing.as_slice());
        self.roomuserid_leftcount.insert(roomuser_id.as_slice(), u64_to_be_bytes(count).as_slice());
        self.userroomid_joined.remove(userroom_id.as_slice());
        self.roomuserid_joined.remove(roomuser_id.as_slice());
        self.userroomid_invitestate.remove(userroom_id.as_slice());
        self.roomuserid_invitecount.remove(roomuser_id.as_slice());
    }

    /// Update current membership data: the fan-out of a member event. An
    /// invitation and a leaving take the next count; a join takes none.
    ///
    /// A counter that cannot be read is reported before anything is changed.
    pub fn update_membership(
        &mut self,
        room_id: &str,
        user_id: &str,
        membership: MembershipState,
        invite_state: &[u8],
        globals: &mut Globals,
    ) -> (r: Result<(), Error>)
        requires
            old(self).wf(),
            old(globals).wf(),
            count_of(old(globals).globals@) < u64::MAX,
        ensures
            final(self).wf(),
            final(globals).wf(),
            counter_readable(old(globals).globals@) ==> (r is Ok),
            counter_readable(old(globals).globals@) ==> (old(self).exclusive() ==> final(self).exclusive()),
            counter_readable(old(globals).globals@) ==> (final(globals).config == old(globals).config),
            counter_readable(old(globals).globals@) ==> (final(globals).servertimeout_signingkey == old(globals).servertimeout_signingkey),
            counter_readable(old(globals).globals@) ==> (final(globals).rotate == old(globals).rotate),
            counter_readable(old(globals).globals@) ==> (final(globals).has_keypair() == old(globals).has_keypair()),
            counter_readable(old(globals).globals@) ==> (final(self).fired(*old(self), pair_key(user_id@, room_id@), pair_key(room_id@, user_id@))),
            counter_readable(old(globals).globals@) ==> (match membership {
                MembershipState::Join => final(globals).globals == old(globals).globals
                    && final(self).userroomid_joined@.contains_key(pair_key(user_id@, room_id@))
                    && final(self).userroomid_joined@ == old(self).userroomid_joined@.insert(
                    pair_key(user_id@, room_id@),
                    Seq::<u8>::empty(),
                )
                    && final(self).userroomid_invitestate@ == old(self).userroomid_invitestate@.remove(pair_key(user_id@, room_id@))
                    && final(self).userroomid_leftstate@ == old(self).userroomid_leftstate@.remove(
                    pair_key(user_id@, room_id@),
                ),
                MembershipState::Invite => count_of(final(globals).globals@) == count_of(
                    old(globals).globals@,
                ) + 1
                    && final(self).userroomid_invitestate@ == old(self).userroomid_invitestate@.insert(pair_key(user_id@, room_id@), invite_state@)
                    && final(self).userroomid_joined@ == old(self).userroomid_joined@.remove(
                    pair_key(user_id@, room_id@),
                ) && final(self).userroomid_leftstate@ == old(self).userroomid_leftstate@.remove(
                    pair_key(user_id@, room_id@),
                ),
                _ => count_of(final(globals).globals@) == count_of(old(globals).globals@) + 1
                    && final(self).userroomid_leftstate@ == old(self).userroomid_leftstate@.insert(
                    pair_key(user_id@, room_id@),
                    no_state(),
                ) && final(self).userroomid_joined@ == old(self).userroomid_joined@.remove(
                    pair_key(user_id@, room_id@),
                )
                    && final(self).userroomid_invitestate@ == old(self).userroomid_invitestate@.remove(pair_key(user_id@, room_id@)),
            }),
            !counter_readable(old(globals).globals@) ==> (is_count_fault(r) && *final(self) == *old(self) && *final(globals) == *old(globals)),
            counter_readable(old(globals).globals@) ==> counter_readable(final(globals).globals@),
    {
        if !globals.counter_is_readable() {
            return Err(Error::bad_database("Count has invalid bytes."));
        }
        match membership {
            MembershipState::Join => {
                self.mark_joined(room_id, user_id);
            },
            MembershipState::Invite => {
                let count = match globals.next_count() {
                    Ok(count) => count,
                    Err(e) => {
                        return Err(e);
                    },
                };
                self.mark_invited(room_id, user_id, invite_state, count);
            },
            _ => {
                let count = match globals.next_count() {
                    Ok(count) => count,
                    Err(e) => {
                        return Err(e);
                    },
                };
                self.mark_left(room_id, user_id, count);
            },
        }
        Ok(())
    }

    /// Returns the rooms the user is joined to. `None` where a room id in
    /// the index is not UTF-8.
    pub fn rooms_joined(&self, user_id: &str) -> (r: Option<Vec<String>>)
        requires
            self.wf(),
        ensures
            match r {
                Some(ids) => last_fields(
                    listing(self.userroomid_joined@, with_prefix(user_prefix(user_id@))),
                ) == Some(crate::config::strings_view(ids@)),
                None => last_fields(
                    listing(self.userroomid_joined@, with_prefix(user_prefix(user_id@))),
                ) is None,
            },
    {
        let prefix = user_prefix_of(user_id);
        let rows = self.userroomid_joined.scan_prefix(prefix.as_slice());
        ids_of(&rows)
    }

    /// Returns the rooms the user is invited to. `None` where a room id in
    /// the index is not UTF-8.
    pub fn rooms_invited(&self, user_id: &str) -> (r: Option<Vec<String>>)
        requires
            self.wf(),
        ensures
            match r {
                Some(ids) => last_fields(
                    listing(self.userroomid_invitestate@, with_prefix(user_prefix(user_id@))),
                ) == Some(crate::config::strings_view(ids@)),
                None => last_fields(
                    listing(self.userroomid_invitestate@, with_prefix(user_prefix(user_id@))),
                ) is None,
            },
    {
        let prefix = user_prefix_of(user_id);
        let rows = self.userroomid_invitestate.scan_prefix(prefix.as_slice());
        ids_of(&rows)
    }

    /// Returns the users joined to the room. `None` where a user id in the
    /// index is not UTF-8.
    pub fn room_members(&self, room_id: &str) -> (r: Option<Vec<String>>)
        requires
            self.wf(),
        ensures
            match r {
                Some(ids) => last_fields(
                    listing(self.roomuserid_joined@, with_prefix(user_prefix(room_id@))),
                ) == Some(crate::config::strings_view(ids@)),
                None => last_fields(
                    listing(self.roomuserid_joined@, with_prefix(user_prefix(room_id@))),
                ) is None,
            },
    {
        let prefix = user_prefix_of(room_id);
        let rows = self.roomuserid_joined.scan_prefix(prefix.as_slice());
        ids_of(&rows)
    }
}

} // verus!
