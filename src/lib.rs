//! A recursive content search: literal and regular-expression matching per
//! line, highlight-range merging and display rendering, and the decisions of
//! the directory walk. Reading files and spreading work over threads are left
//! to the caller, which hands the library plain values.

pub mod config;
pub mod pattern;
pub mod ranges;
pub mod render;
pub mod scan;
pub mod search;
pub mod walk;
