//! Coverage analysis and reports for BPF programs.
pub mod analysis;
pub mod dwarf;
pub mod fill;
pub mod html;
pub mod graph_laws;
pub mod html_laws;
pub mod lcov;
pub mod lcov_laws;
pub mod map_laws;
pub mod page;
pub mod source_laws;
pub mod source_lcov;
pub mod types;
