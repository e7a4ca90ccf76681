//! Layout closure traversal and compact layout-table builders for OpenType fonts.

pub mod class_builder;
pub mod class_def;
pub mod closure;
pub mod closure_laws;
pub mod coverage;
pub mod device;
pub mod domain;
pub mod fword;
pub mod int_set;
pub mod layout;
pub mod lookup;
pub mod metric;
pub mod variations;
