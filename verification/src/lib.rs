//! A fixed-capacity component store indexed by a flat slot index: the
//! storage layer of a grid-based entity-component model.
//!
//! Component types are declared under opaque runtime tags; each declared
//! tag owns one dense column with a cell per slot. The store never looks
//! inside the component values it holds, so one store carries an
//! arbitrary, caller-declared set of component types.
//!
//! `store` holds the store itself, with a contract on every operation;
//! `laws` states and proves the lifecycle laws that the contracts obey.

pub mod store;
pub mod laws;
