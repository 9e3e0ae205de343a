//! The analyses that a program goes through before it is compiled: name
//! resolution, then the choice of where each variable is stored.

pub mod allocation;
pub mod linkage;
pub mod annotation;
pub mod resolution;
pub mod scope;
pub mod unresolved;
