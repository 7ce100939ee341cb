//! What a request must carry to act for a user.

use crate::database::Database;
use crate::error::Error;
use crate::users::token_owner;
use vstd::prelude::*;
use vstd::string::*;
use vstd::utf8::*;

verus! {

/// The length of the word `Bearer` and the space after it, which begin an
/// `Authorization` header.
pub const BEARER_PREFIX_LENGTH: usize = 7;

/// The access token that a request carries: what follows the first seven
/// bytes of its `Authorization` header, or else the `access_token` of its
/// query. A header that is too short to hold a token, or that cannot be cut
/// after seven bytes, carries none.
pub open spec fn carried_token(authorization: Option<Seq<char>>, query: Option<Seq<char>>) -> Option<
    Seq<u8>,
> {
    match authorization {
        Some(header) => if encode_utf8(header).len() >= 7 && is_char_boundary(
            encode_utf8(header),
            7,
        ) {
            Some(encode_utf8(header).skip(7))
        } else {
            None
        },
        None => match query {
            Some(token) => Some(encode_utf8(token)),
            None => None,
        },
    }
}

/// Get token from header or query value.
pub fn bearer_token(authorization: Option<&str>, query: Option<&str>) -> (r: Option<String>)
    ensures
        match r {
            Some(token) => carried_token(
                crate::account_data::opt_view(authorization),
                crate::account_data::opt_view(query),
            ) == Some(encode_utf8(token@)),
            None => carried_token(
                crate::account_data::opt_view(authorization),
                crate::account_data::opt_view(query),
            ) is None,
        },
{
    match authorization {
        Some(header) => {
            if header.as_bytes().len() >= BEARER_PREFIX_LENGTH && header.is_char_boundary(
                BEARER_PREFIX_LENGTH,
            ) {
                // Split off "Bearer "
                let (_, token) = header.split_at(BEARER_PREFIX_LENGTH);
                let owned = token.to_owned();
                proof {
                    let bytes = encode_utf8(header@);
                    assert(header.spec_bytes() == bytes);
                    assert(token.spec_bytes() =~= bytes.subrange(7, bytes.len() as int));
                    assert(bytes.subrange(7, bytes.len() as int) =~= bytes.skip(7));
                    assert(encode_utf8(owned@) == token.spec_bytes());
                }
                Some(owned)
            } else {
                None
            }
        },
        None => match query {
            Some(token) => Some(token.to_owned()),
            None => None,
        },
    }
}

/// Who a request acts for: the user and the device that its access token
/// belongs to. `None` where it carries no token or an unknown one.
pub fn authenticate(db: &Database, authorization: Option<&str>, query: Option<&str>) -> (r: Result<
    Option<(String, String)>,
    Error,
>)
    requires
        db.wf(),
    ensures
        match carried_token(
            crate::account_data::opt_view(authorization),
            crate::account_data::opt_view(query),
        ) {
            None => r matches Ok(None),
            Some(token) => match db.users.token_userdeviceid.stored(token) {
                None => r matches Ok(None),
                Some(value) => match token_owner(value) {
                    Ok(owner) => r matches Ok(Some(found)) && found.0@ == owner.0 && found.1@
                        == owner.1,
                    Err(e) => r matches Err(err) && err == e,
                },
            },
        },
{
    match bearer_token(authorization, query) {
        None => Ok(None),
        // Check if token is valid
        Some(token) => db.users.find_from_token(token.as_str()),
    }
}

} // verus!
