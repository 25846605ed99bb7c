//! Core of a polyglot binding test harness: which languages a fixture tree
//! needs, which generated files are worth a snapshot, how captured content is
//! normalised and compared against a baseline store, and the fail-fast order in
//! which the per-language stages run.

pub mod text;
pub mod language;
pub mod detect;
pub mod normalize;
pub mod snapshot;
pub mod selection;
pub mod run;
