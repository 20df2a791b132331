use bezirke::protocol::{respond, Code, LocatedCar, Response};
use bezirke::Bezirk;

fn district(name: &str) -> Bezirk<()> {
    Bezirk { identifier: 7, parents: vec![1, 2], name: name.to_string(), location: () }
}

#[test]
fn respond_names_the_district_found() {
    let b = district("Mitte");
    let res = respond(42, Some(LocatedCar { car_id: 9, found: Some(&b) }));
    assert_eq!(res.request_id, 42);
    assert_eq!(res.code, Code::Okay);
    match res.response {
        Some(Response::Location(r)) => {
            assert_eq!(r.car_id, 9);
            assert_eq!(r.location, "Mitte");
        },
        None => panic!("expected a location response"),
    }
}

#[test]
fn respond_with_empty_name_when_nothing_found() {
    let res = respond::<()>(3, Some(LocatedCar { car_id: 5, found: None }));
    assert_eq!(res.request_id, 3);
    assert_eq!(res.code, Code::Okay);
    match res.response {
        Some(Response::Location(r)) => {
            assert_eq!(r.car_id, 5);
            assert_eq!(r.location, "");
        },
        None => panic!("expected a location response"),
    }
}

#[test]
fn respond_without_payload_for_other_requests() {
    let res = respond::<()>(11, None);
    assert_eq!(res.request_id, 11);
    assert_eq!(res.code, Code::Okay);
    assert!(res.response.is_none());
}
