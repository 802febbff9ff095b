//! Verified core of a line scratchpad: an ordered ledger of text lines keyed
//! by stable ids, a command-based undo/redo engine that inverts every
//! mutation exactly, and the decision logic that turns ambient text
//! insertions into ledger lines while filtering selection echoes.

pub mod capture;
pub mod history;
pub mod ledger;
pub mod prefs;
pub mod state;
pub mod text;
