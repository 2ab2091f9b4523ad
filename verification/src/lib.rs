//! Verifies and sorts translation files against a base file: finds missing
//! and unknown keys, compares the order of keys, and reports differences.
pub mod tree;
pub mod translation;
pub mod keys;
pub mod json;
pub mod diff;
pub mod verify;
pub mod walk;
pub mod options;
pub mod laws;
pub mod sort_laws;
pub mod shape_laws;
pub mod visit_laws;
pub mod report_laws;
pub mod json_laws;
