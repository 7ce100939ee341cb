//! Push rules as the client API sees them.

use crate::account_data::found_event;
use crate::database::Database;
use crate::error::{Error, ErrorKind};
use vstd::prelude::*;

verus! {

/// The event type under which a user's push rules are stored.
pub open spec fn push_rules_type() -> Seq<char> {
    "m.push_rules"@
}

/// # `GET /_matrix/client/r0/pushrules`
///
/// Retrieves the push rules event for this user, as it is stored.
pub fn get_pushrules_all_route(db: &Database, sender_user: &str) -> (r: Result<Vec<u8>, Error>)
    requires
        db.wf(),
    ensures
        match found_event(
            db.account_data.roomuserdataid_accountdata@,
            None,
            sender_user@,
            push_rules_type(),
        ) {
            Some(row) => r matches Ok(event) && event@ == row.1,
            None => r matches Err(e) && e == Error::BadRequest(
                ErrorKind::NotFound,
                "PushRules event not found.",
            ),
        },
{
    match db.account_data.get(None, sender_user, "m.push_rules") {
        Some(event) => Ok(event),
        None => Err(Error::BadRequest(ErrorKind::NotFound, "PushRules event not found.")),
    }
}

} // verus!
