//! EPUB round-trip divergence classifier, feature catalogue and result
//! manifest, with their contracts proved by Verus.
//!
//! Divergence between a source container and its round-trip is classified
//! before it is counted: a bare byte-difference percentage over a zip archive
//! measures the writer's zip library, not its fidelity to the book. The
//! feature catalogue records what a corpus contains in three states, and its
//! output is a floor that only an explicit, reasoned widening turns into a
//! requirements list.

pub mod taxonomy;
pub mod text;
pub mod archive;
pub mod scan;
pub mod detect;
pub mod catalogue;
pub mod family;
pub mod normalization;
pub mod xml;
pub mod xmlcmp;
pub mod producer;
pub mod classify;
pub mod roundtrip;
pub mod manifest;
pub mod verdict;
pub mod order;
pub mod provenance;
pub mod floor;
pub mod error;
pub mod zipread;
pub mod digest;
pub mod zipwrite;
pub mod fixtures;
pub mod fixture_cases;
pub mod selftest;
pub mod seed;
pub mod probe;
pub mod report;
