//! Error types of the road network and mesoscopic subsystems.

use vstd::prelude::*;

verus! {

/// An I/O error, carried through unexamined.
#[verifier::external_type_specification]
#[verifier::external_body]
pub struct ExIoError(std::io::Error);

/// Errors that can occur in the road network subsystem.
#[derive(Debug)]
pub enum NetError {
    /// I/O error reading files.
    Io(std::io::Error),
    /// Error parsing OSM PBF data.
    OsmParse(String),
    /// No path found between two nodes.
    NoPathFound {
        from: u32,
        to: u32,
    },
    /// Error encoding or decoding a cached structure.
    Serialization(String),
}

/// Errors produced by the mesoscopic simulation module.
#[derive(Debug)]
pub enum MesoError {
    /// Failed to parse zone configuration file.
    ZoneConfigParse(String),
    /// I/O error reading zone configuration.
    ZoneConfigIo(std::io::Error),
}

} // verus!
