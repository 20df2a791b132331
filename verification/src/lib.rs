//! Locating the administrative district (Bezirk) that contains a position.
//!
//! The geometry itself (floating-point polygons, rectangles and points) is
//! handled by the application; this library holds the decisions around it:
//! how the search area is subdivided into chunks, in which order chunks and
//! districts are searched, how the district records and the parent tree are
//! assembled, how request frames are delimited, how a response is built from a
//! request, and how requests are tallied.

pub mod bezirk;
pub mod stattrack;

pub mod frame;
pub mod geo_to_bezirk;
pub mod protocol;
pub mod tree;

pub use bezirk::{geodata_path, parsed_from, Bezirk, BezirkeData, GeoData, RawBezirk};
pub use stattrack::{log_req, take_thousands, RequestCounter};
