//! Verified core of the VELOS traffic simulator: fixed-point arithmetic,
//! agent profiles and their flag encoding, demand tables, reroute
//! scheduling, lane sorting for wave-front dispatch, contraction-hierarchy
//! path unpacking, terrain tile decoding, and GTFS feed parsing with bus
//! schedule and route assembly.

pub mod fixed_point;
pub mod cost;
pub mod od_matrix;
pub mod components;
pub mod compute;
pub mod reroute;
pub mod cch;
pub mod terrain;
pub mod sim;
pub mod spawn;
pub mod error;
pub mod graph;
pub mod text;
pub mod gtfs;
pub mod feed;
