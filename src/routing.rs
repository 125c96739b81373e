//! The closed set of operations an inbound route key can select.
use vstd::prelude::*;

use crate::membership::MembershipError;

verus! {

/// An operation selected by a route key.
#[derive(Debug, PartialEq, Eq, Structural, Clone, Copy)]
pub enum Route {
    Connect,
    CreateRoom,
    Subscribe,
    Unsubscribe,
}

/// The operation a route key names, if any.
pub open spec fn route_of(key: Seq<char>) -> Option<Route> {
    if key == "$connect"@ {
        Some(Route::Connect)
    } else if key == "create"@ {
        Some(Route::CreateRoom)
    } else if key == "subscribe"@ {
        Some(Route::Subscribe)
    } else if key == "unsubscribe"@ {
        Some(Route::Unsubscribe)
    } else {
        None
    }
}

/// Maps an inbound route key to its operation; a missing or unknown key is
/// `UnrecognizedRoute`.
pub fn parse_route(key: Option<&str>) -> (r: Result<Route, MembershipError>)
    ensures
        match key {
            None => r == Err::<Route, MembershipError>(MembershipError::UnrecognizedRoute),
            Some(k) => match route_of(k@) {
                Some(route) => r == Ok::<Route, MembershipError>(route),
                None => r == Err::<Route, MembershipError>(MembershipError::UnrecognizedRoute),
            },
        },
{
    let k = match key {
        None => {
            return Err(MembershipError::UnrecognizedRoute);
        },
        Some(k) => k.to_owned(),
    };
    if k == "$connect".to_owned() {
        Ok(Route::Connect)
    } else if k == "create".to_owned() {
        Ok(Route::CreateRoom)
    } else if k == "subscribe".to_owned() {
        Ok(Route::Subscribe)
    } else if k == "unsubscribe".to_owned() {
        Ok(Route::Unsubscribe)
    } else {
        Err(MembershipError::UnrecognizedRoute)
    }
}

} // verus!
