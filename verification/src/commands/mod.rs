//! The commands: what each of them does to a store, and what it prints.

pub mod branch_laws;
pub mod branches;
pub mod compare;
pub mod laws;
pub mod line_laws;
pub mod report_laws;
pub mod snaps;
pub mod upkeep;
pub mod upkeep_laws;
