//! Core of a directory snapshot-and-restore engine: the rules that decide what
//! is protected, scanned, archived, deleted and rebuilt, stated as contracts.

pub mod text;
pub mod models;
pub mod safety;
pub mod exclusion;
pub mod hashing;
pub mod scan;
pub mod delta;
pub mod restore;
pub mod archive;
pub mod diff;
pub mod lineage;
pub mod catalog;
pub mod sizes;
pub mod effects;
pub mod laws;
pub mod roundtrip;
pub mod layout;
pub mod setup;
pub mod console;
