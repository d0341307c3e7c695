//! Probing instructions with mutated accounts.
//!
//! An instruction that succeeds is run again on a copy of the machine with one account changed. Where
//! the changed transaction still succeeds and does the same, a check of that account is missing.
pub mod accounts;
pub mod alias;
pub mod binding;
pub mod cache;
pub mod classes;
pub mod effects;
pub mod findings;
pub mod identity;
pub mod chance_laws;
pub mod laws;
pub mod link_laws;
pub mod probe;
pub mod refs;
pub mod run_laws;
pub mod signers;
pub mod tokens;
