//! Transactional, content-addressed code edits with crash-consistent apply and undo,
//! budgeted search and outline, and a read-only git worktree doctor.
//!
//! Everything here is a function of plain values: file contents, directory listings and
//! replies of `git` come in as arguments, and decisions, texts and bytes go out.

pub mod answers;
pub mod apply;
pub mod codec;
pub mod crash;
pub mod doctor;
pub mod drift;
pub mod errors;
pub mod fault;
pub mod journal;
pub mod gitbase;
pub mod index;
pub mod json;
pub mod lock;
pub mod looking;
pub mod calendar;
pub mod metrics;
pub mod order;
pub mod ordmap;
pub mod outline;
pub mod output;
pub mod paths;
pub mod plan;
pub mod query;
pub mod reading;
pub mod recover;
pub mod render;
pub mod resolve;
pub mod root;
pub mod scope;
pub mod sites;
pub mod steps;
pub mod strings;
pub mod symbol_search;
pub mod symbols;
pub mod tally;
pub mod text;
pub mod verbs;
pub mod walk;
pub mod worktree;

pub use errors::{ErrorKind, VcError, VcResult};
