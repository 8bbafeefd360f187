//! A verified core for a skill-discovery pipeline: registries of "skill"
//! packages are scanned into a keyed store, projected into a full-text
//! index, overlaid with curated quality scores, and queried through a
//! ranking, filtering retriever.
//!
//! Everything stateful here is in-memory and verified; acquiring mirrors,
//! fetching popularity pages, and persisting the store are left to an
//! unverified shell that hands plain values in and out.

pub mod text;

pub mod frontmatter;

pub mod db;

pub mod quality;

pub mod index;

pub mod registry;

pub mod retrieve;
