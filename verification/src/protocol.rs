//! The answer to a client message.

use vstd::prelude::*;

use crate::bezirk::Bezirk;

verus! {

/// The status code of a response.
#[derive(PartialEq, Eq, Structural, Clone, Copy, Debug)]
pub enum Code {
    /// The request was handled (`Ok` on the wire).
    Okay,
}

/// The answer to a location request: the car it was asked for and the name of
/// the district it is in (empty when no district contains it).
pub struct LocationUpdateResponse {
    pub car_id: u64,
    pub location: String,
}

/// The payload of a response.
pub enum Response {
    Location(LocationUpdateResponse),
}

/// A response to a client message.
pub struct ClientResponse {
    pub request_id: u64,
    pub code: Code,
    pub response: Option<Response>,
}

/// A location request that has been looked up: the car it was asked for and
/// the district found for its position.
pub struct LocatedCar<'a, G> {
    pub car_id: u64,
    pub found: Option<&'a Bezirk<G>>,
}

/// The response to the message `request_id`: its code is `Okay`; when the
/// message was a location request, the response carries the car and the name
/// of the district found, or an empty name when none was found.
pub fn respond<G>(request_id: u64, location: Option<LocatedCar<'_, G>>) -> (res: ClientResponse)
    ensures
        res.request_id == request_id,
        res.code == Code::Okay,
        match location {
            None => res.response is None,
            Some(l) => match res.response {
                Some(Response::Location(r)) => {
                    &&& r.car_id == l.car_id
                    &&& r.location@ == match l.found {
                        Some(b) => b.name@,
                        None => Seq::<char>::empty(),
                    }
                },
                None => false,
            },
        },
{
    let response = match location {
        Some(l) => {
            let name = match l.found {
                Some(b) => b.name.clone(),
                None => String::new(),
            };
            Some(Response::Location(LocationUpdateResponse { car_id: l.car_id, location: name }))
        },
        None => None,
    };
    ClientResponse { request_id, code: Code::Okay, response }
}

} // verus!
