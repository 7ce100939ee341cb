//! The tables of rooms, grouped by what they record.

use crate::error::Error;
use crate::json::{json_string_at, string_member};
use crate::membership::Membership;
use crate::tree::Tree;
use vstd::prelude::*;

verus! {

/// Which servers take part in which rooms.
pub struct RoomServers {
    /// RoomId + ServerName
    pub roomserverids: Tree,
    /// ServerName + RoomId
    pub serverroomids: Tree,
}

/// The events of the rooms.
pub struct Timeline {
    /// PduId = ShortRoomId + Count -> the event
    pub pduid_pdu: Tree,
    /// EventId -> PduId
    pub eventid_pduid: Tree,
    /// ShortRoomId + Word + 0xff + Count: the search index
    pub tokenids: Tree,
    /// EventId -> an event that is known but not part of a timeline
    pub eventid_outlierpdu: Tree,
    /// ShortEventId -> EventId
    pub shorteventid_eventid: Tree,
    /// EventId -> ShortEventId
    pub eventid_shorteventid: Tree,
    /// RoomId + EventId: the events of a room that no later event refers to
    pub roomid_pduleaves: Tree,
}

/// The short ids of rooms.
pub struct ShortRoomIds {
    /// RoomId -> ShortRoomId
    pub roomid_shortroomid: Tree,
    /// ShortRoomId -> RoomId
    pub shortroomid_roomid: Tree,
}

/// The resolved state of the rooms.
pub struct RoomState {
    /// The legacy flat form: ShortStateHash + ShortStateKey -> ShortEventId
    pub stateid_shorteventid: Tree,
    /// ShortStateHash -> the parent's hash, what is added, what is removed
    pub shortstatehash_statediff: Tree,
    /// RoomId -> the ShortStateHash of the room's current state
    pub roomid_shortstatehash: Tree,
    /// EventType + StateKey -> ShortStateKey
    pub statekey_shortstatekey: Tree,
    /// ShortEventId -> the ShortStateHash of the state after the event
    pub shorteventid_shortstatehash: Tree,
    /// The entries of a state -> its ShortStateHash
    pub statehash_shortstatehash: Tree,
}

/// Typing notices and read receipts.
pub struct RoomEdus {
    /// RoomId + Count + UserId -> the receipt
    pub readreceiptid_readreceipt: Tree,
    /// RoomId -> the count of the last typing update
    pub roomid_lasttypingupdate: Tree,
}

/// How many events call for a user's attention, by room.
pub struct Notifications {
    /// UserId + RoomId -> the number of notifications
    pub userroomid_notificationcount: Tree,
    /// UserId + RoomId -> the number of highlights
    pub userroomid_highlightcount: Tree,
}

/// All tables of rooms.
pub struct Rooms {
    pub membership: Membership,
    pub servers: RoomServers,
    pub timeline: Timeline,
    pub shortids: ShortRoomIds,
    pub state: RoomState,
    pub edus: RoomEdus,
    pub notifications: Notifications,
}

impl RoomServers {
    /// Neither index holds a row, and nobody waits on them.
    pub open spec fn fresh(&self) -> bool {
        &&& self.roomserverids.fresh()
        &&& self.serverroomids.fresh()
    }

    pub open spec fn wf(&self) -> bool {
        self.roomserverids.wf() && self.serverroomids.wf()
    }
}

impl Timeline {
    /// No event is stored, and nobody waits on any tree.
    pub open spec fn fresh(&self) -> bool {
        &&& self.pduid_pdu.fresh()
        &&& self.eventid_pduid.fresh()
        &&& self.tokenids.fresh()
        &&& self.eventid_outlierpdu.fresh()
        &&& self.shorteventid_eventid.fresh()
        &&& self.eventid_shorteventid.fresh()
        &&& self.roomid_pduleaves.fresh()
    }

    pub open spec fn wf(&self) -> bool {
        &&& self.pduid_pdu.wf()
        &&& self.eventid_pduid.wf()
        &&& self.tokenids.wf()
        &&& self.eventid_outlierpdu.wf()
        &&& self.shorteventid_eventid.wf()
        &&& self.eventid_shorteventid.wf()
        &&& self.roomid_pduleaves.wf()
    }
}

/// The event with the given id, as it is stored: the event in a timeline
/// that the id leads to, or else the outlier stored under the id.
pub open spec fn stored_pdu(
    eventid_pduid: Map<Seq<u8>, Seq<u8>>,
    pduid_pdu: Map<Seq<u8>, Seq<u8>>,
    eventid_outlierpdu: Map<Seq<u8>, Seq<u8>>,
    event_id: Seq<u8>,
) -> Result<Seq<u8>, Error> {
    if eventid_pduid.contains_key(event_id) {
        if pduid_pdu.contains_key(eventid_pduid[event_id]) {
            Ok(pduid_pdu[eventid_pduid[event_id]])
        } else {
            Err(Error::BadDatabase("Invalid pduid in eventid_pduid."))
        }
    } else if eventid_outlierpdu.contains_key(event_id) {
        Ok(eventid_outlierpdu[event_id])
    } else {
        Err(Error::BadDatabase("Event does not exist."))
    }
}

/// The room of the event with the given short id: what the stored event
/// names as its `room_id`.
pub open spec fn room_of_short_event(
    shorteventid_eventid: Map<Seq<u8>, Seq<u8>>,
    eventid_pduid: Map<Seq<u8>, Seq<u8>>,
    pduid_pdu: Map<Seq<u8>, Seq<u8>>,
    eventid_outlierpdu: Map<Seq<u8>, Seq<u8>>,
    shorteventid: Seq<u8>,
) -> Result<Seq<char>, Error> {
    if !shorteventid_eventid.contains_key(shorteventid) {
        Err(Error::BadDatabase("Short event id does not exist."))
    } else {
        match stored_pdu(
            eventid_pduid,
            pduid_pdu,
            eventid_outlierpdu,
            shorteventid_eventid[shorteventid],
        ) {
            Err(e) => Err(e),
            Ok(pdu) => match json_string_at(pdu, "room_id"@) {
                Some(room) => Ok(room),
                None => Err(Error::BadDatabase("Invalid PDU in db.")),
            },
        }
    }
}

impl Timeline {
    /// The room of an event, as these tables give it.
    pub open spec fn room_of(&self, shorteventid: Seq<u8>) -> Result<Seq<char>, Error> {
        room_of_short_event(
            self.shorteventid_eventid@,
            self.eventid_pduid@,
            self.pduid_pdu@,
            self.eventid_outlierpdu@,
            shorteventid,
        )
    }

    /// Returns the stored event with the given id.
    pub fn get_pdu_json(&self, event_id: &[u8]) -> (r: Result<Vec<u8>, Error>)
        requires
            self.wf(),
        ensures
            match r {
                Ok(pdu) => stored_pdu(
                    self.eventid_pduid@,
                    self.pduid_pdu@,
                    self.eventid_outlierpdu@,
                    event_id@,
                ) == Ok::<Seq<u8>, Error>(pdu@),
                Err(e) => stored_pdu(
                    self.eventid_pduid@,
                    self.pduid_pdu@,
                    self.eventid_outlierpdu@,
                    event_id@,
                ) == Err::<Seq<u8>, Error>(e),
            },
    {
        match self.eventid_pduid.get(event_id) {
            Some(pduid) => match self.pduid_pdu.get(pduid.as_slice()) {
                Some(pdu) => Ok(pdu),
                None => Err(Error::bad_database("Invalid pduid in eventid_pduid.")),
            },
            None => match self.eventid_outlierpdu.get(event_id) {
                Some(pdu) => Ok(pdu),
                None => Err(Error::bad_database("Event does not exist.")),
            },
        }
    }

    /// Returns the room of the event with the given short id.
    pub fn room_of_event(&self, shorteventid: &[u8]) -> (r: Result<String, Error>)
        requires
            self.wf(),
        ensures
            match r {
                Ok(room) => self.room_of(shorteventid@) == Ok::<Seq<char>, Error>(room@),
                Err(e) => self.room_of(shorteventid@) == Err::<Seq<char>, Error>(e),
            },
    {
        let event_id = match self.shorteventid_eventid.get(shorteventid) {
            Some(event_id) => event_id,
            None => {
                return Err(Error::bad_database("Short event id does not exist."));
            },
        };
        let pdu = match self.get_pdu_json(event_id.as_slice()) {
            Ok(pdu) => pdu,
            Err(e) => {
                return Err(e);
            },
        };
        match string_member(pdu.as_slice(), "room_id") {
            Some(room) => Ok(room),
            None => Err(Error::bad_database("Invalid PDU in db.")),
        }
    }
}

impl ShortRoomIds {
    /// No room has a short id, and nobody waits on the trees.
    pub open spec fn fresh(&self) -> bool {
        &&& self.roomid_shortroomid.fresh()
        &&& self.shortroomid_roomid.fresh()
    }

    pub open spec fn wf(&self) -> bool {
        self.roomid_shortroomid.wf() && self.shortroomid_roomid.wf()
    }
}

impl RoomState {
    /// No state is stored, and nobody waits on any tree.
    pub open spec fn fresh(&self) -> bool {
        &&& self.stateid_shorteventid.fresh()
        &&& self.shortstatehash_statediff.fresh()
        &&& self.roomid_shortstatehash.fresh()
        &&& self.statekey_shortstatekey.fresh()
        &&& self.shorteventid_shortstatehash.fresh()
        &&& self.statehash_shortstatehash.fresh()
    }

    pub open spec fn wf(&self) -> bool {
        &&& self.stateid_shorteventid.wf()
        &&& self.shortstatehash_statediff.wf()
        &&& self.roomid_shortstatehash.wf()
        &&& self.statekey_shortstatekey.wf()
        &&& self.shorteventid_shortstatehash.wf()
        &&& self.statehash_shortstatehash.wf()
    }
}

impl RoomEdus {
    /// Neither tree holds a row, and nobody waits on them.
    pub open spec fn fresh(&self) -> bool {
        &&& self.readreceiptid_readreceipt.fresh()
        &&& self.roomid_lasttypingupdate.fresh()
    }

    pub open spec fn wf(&self) -> bool {
        self.readreceiptid_readreceipt.wf() && self.roomid_lasttypingupdate.wf()
    }
}

impl Notifications {
    /// Neither tree holds a row, and nobody waits on them.
    pub open spec fn fresh(&self) -> bool {
        &&& self.userroomid_notificationcount.fresh()
        &&& self.userroomid_highlightcount.fresh()
    }

    pub open spec fn wf(&self) -> bool {
        self.userroomid_notificationcount.wf() && self.userroomid_highlightcount.wf()
    }
}

impl Rooms {
    /// Every tree is well formed.
    pub open spec fn wf(&self) -> bool {
        &&& self.membership.wf()
        &&& self.servers.wf()
        &&& self.timeline.wf()
        &&& self.shortids.wf()
        &&& self.state.wf()
        &&& self.edus.wf()
        &&& self.notifications.wf()
    }

    /// No table of rooms holds a row, and nobody waits on any of them.
    pub open spec fn fresh(&self) -> bool {
        &&& self.membership.fresh()
        &&& self.servers.fresh()
        &&& self.timeline.fresh()
        &&& self.shortids.fresh()
        &&& self.state.fresh()
        &&& self.edus.fresh()
        &&& self.notifications.fresh()
    }

    /// Tables without a room.
    pub fn new() -> (r: Rooms)
        ensures
            r.wf(),
            r.fresh(),
            r.membership.exclusive(),
            crate::state_laws::store_sound(r.state.shortstatehash_statediff@),
    {
        Rooms {
            membership: Membership::new(),
            servers: RoomServers { roomserverids: Tree::new(), serverroomids: Tree::new() },
            timeline: Timeline {
                pduid_pdu: Tree::new(),
                eventid_pduid: Tree::new(),
                tokenids: Tree::new(),
                eventid_outlierpdu: Tree::new(),
                shorteventid_eventid: Tree::new(),
                eventid_shorteventid: Tree::new(),
                roomid_pduleaves: Tree::new(),
            },
            shortids: ShortRoomIds {
                roomid_shortroomid: Tree::new(),
                shortroomid_roomid: Tree::new(),
            },
            state: RoomState {
                stateid_shorteventid: Tree::new(),
                shortstatehash_statediff: Tree::new(),
                roomid_shortstatehash: Tree::new(),
                statekey_shortstatekey: Tree::new(),
                shorteventid_shortstatehash: Tree::new(),
                statehash_shortstatehash: Tree::new(),
            },
            edus: RoomEdus {
                readreceiptid_readreceipt: Tree::new(),
                roomid_lasttypingupdate: Tree::new(),
            },
            notifications: Notifications {
                userroomid_notificationcount: Tree::new(),
                userroomid_highlightcount: Tree::new(),
            },
        }
    }
}

} // verus!
