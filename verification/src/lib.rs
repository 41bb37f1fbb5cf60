//! A data-oriented entity/component store.
//!
//! Independent pieces of logic attach typed data ("components") to opaque
//! dense identifiers ("entities") and later retrieve, by component tag, the
//! entities that own a requested combination of components. The store keeps
//! one dense array of optional component values per registered tag, guards
//! each array with a runtime aliasing counter ("many readers xor one
//! writer"), and composes single-component accessors into multi-component
//! queries with forward iteration, including a self-excluding scan used for
//! pairwise interaction algorithms.

pub mod combo_iterator;
pub mod commands;
pub mod component_array;
pub mod entity;
pub mod math;
pub mod query;
pub mod world;
