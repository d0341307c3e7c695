//! Test context for fuzzing on-chain programs.
pub mod account_builders;
pub mod actions;
pub mod builders;
pub mod calendar;
pub mod context;
pub mod coverage;
pub mod debug;
pub mod discriminators;
pub mod errors;
pub mod ids;
pub mod json;
pub mod keyorder;
pub mod keys;
pub mod laws;
pub mod lexical;
pub mod load_laws;
pub mod mutation;
pub mod number;
pub mod oracles;
pub mod order;
pub mod outcome;
pub mod paths;
pub mod ready;
pub mod replay;
pub mod rewind;
pub mod rpc;
pub mod schema;
pub mod send;
pub mod session;
pub mod setup_laws;
pub mod snapshot;
pub mod sorting;
pub mod svm;
pub mod sysvars;
pub mod text;
pub mod text_laws;
pub mod token;
pub mod types;
