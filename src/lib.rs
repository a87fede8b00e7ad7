//! Hardware-driver resolution: a catalog of hardware setups is turned into a
//! multi-axis index, and queries over the identifiers present on a machine are
//! answered from that index.

pub mod error;
pub mod hardware;
pub mod catalog;
pub mod index;
pub mod resolver;
pub mod preference;
pub mod actions;
pub mod tags;
pub mod commandline;
