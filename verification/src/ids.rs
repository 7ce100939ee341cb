//! Matrix user ids, as the `ruma` crate reads them.

use crate::error::{Error, ErrorKind};
use crate::utils::str_eq;
use vstd::prelude::*;

verus! {

/// What `ruma` makes of a user name on a server.
#[derive(Debug)]
pub struct ParsedUserId {
    /// The full user id, `@localpart:server`.
    pub id: String,
    /// The server named in the id.
    pub server_name: String,
    /// Whether the id is valid only by the historical grammar.
    pub historical: bool,
}

/// The user id that `ruma` makes of a user name, given as full id or as
/// localpart, on the server `server_name`: the id, the server it names, and
/// whether it is historical. `None` where `ruma` rejects the name or the
/// server's name.
pub uninterp spec fn parsed_user_id(name: Seq<char>, server_name: Seq<char>) -> Option<
    (Seq<char>, Seq<char>, bool),
>;

/// The string in lower case, as std's `str::to_lowercase` gives it.
pub uninterp spec fn lowercased(s: Seq<char>) -> Seq<char>;

/// `ServerName::parse` and `UserId::parse_with_server_name` of ruma, with
/// the id's `server_name` and `is_historical` read out. Trusted: the answer
/// depends on the two strings alone.
#[verifier::external_body]
pub(crate) fn parse_user_id(name: &str, server_name: &str) -> (r: Option<ParsedUserId>)
    ensures
        match r {
            Some(p) => parsed_user_id(name@, server_name@) == Some((p.id@, p.server_name@, p.historical)),
            None => parsed_user_id(name@, server_name@) is None,
        },
{
    let server = ruma::ServerName::parse(server_name).ok()?;
    ruma::UserId::parse_with_server_name(name, &server).ok().map(
        |user| ParsedUserId {
            id: user.to_string(),
            server_name: user.server_name().to_string(),
            historical: user.is_historical(),
        },
    )
}

/// std's `str::to_lowercase`. Trusted: the answer depends on the string
/// alone.
#[verifier::external_body]
pub(crate) fn to_lowercase(s: &str) -> (r: String)
    ensures
        r@ == lowercased(s@),
{
    s.to_lowercase()
}

/// The id of a user of this server, if the parsed name is one: it must not
/// be historical and must name this server.
pub open spec fn local_user(
    parsed: Option<(Seq<char>, Seq<char>, bool)>,
    server_name: Seq<char>,
) -> Option<Seq<char>> {
    match parsed {
        Some(p) => if !p.2 && p.1 == server_name {
            Some(p.0)
        } else {
            None
        },
        None => None,
    }
}

/// Decides whether a parsed user name is the name of a user of this server.
pub fn check_local_user(parsed: Option<ParsedUserId>, server_name: &str) -> (r: Result<
    String,
    Error,
>)
    ensures
        match r {
            Ok(id) => local_user(
                match parsed {
                    Some(p) => Some((p.id@, p.server_name@, p.historical)),
                    None => None,
                },
                server_name@,
            ) == Some(id@),
            Err(e) => local_user(
                match parsed {
                    Some(p) => Some((p.id@, p.server_name@, p.historical)),
                    None => None,
                },
                server_name@,
            ) is None && e == Error::BadRequest(ErrorKind::InvalidUsername, "Username is invalid."),
        },
{
    match parsed {
        Some(p) => {
            if !p.historical && str_eq(p.server_name.as_str(), server_name) {
                Ok(p.id)
            } else {
                Err(Error::BadRequest(ErrorKind::InvalidUsername, "Username is invalid."))
            }
        },
        None => Err(Error::BadRequest(ErrorKind::InvalidUsername, "Username is invalid.")),
    }
}

/// Validate user id: the id of the user of this server that `name` names.
pub fn local_user_id(name: &str, server_name: &str) -> (r: Result<String, Error>)
    ensures
        match r {
            Ok(id) => local_user(parsed_user_id(name@, server_name@), server_name@) == Some(id@),
            Err(e) => local_user(parsed_user_id(name@, server_name@), server_name@) is None && e
                == Error::BadRequest(ErrorKind::InvalidUsername, "Username is invalid."),
        },
{
    check_local_user(parse_user_id(name, server_name), server_name)
}

} // verus!
