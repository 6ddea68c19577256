//! Core logic of a compression command-line tool: a catalog of compression
//! formats, parsers that decode chains of filename extensions, a magic-byte
//! sniffer, and a path-conflict resolver with a rename-for-availability
//! algorithm.

pub mod byteops;
pub mod digits;
pub mod extension;
pub mod paths;
pub mod sniff;
