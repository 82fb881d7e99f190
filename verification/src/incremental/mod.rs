//! The incremental engine: formulas checked against their grammar before
//! they are stored, a dependency graph kept from one command to the next,
//! and re-evaluation of the cells connected to the changed one.

pub mod eval;
pub mod dag;
pub mod session;
