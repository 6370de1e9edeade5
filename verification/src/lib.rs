//! A small symbolic model of categories: objects, morphisms between them,
//! a registry of both, and a topos built on top of such a registry.

pub mod categories;
pub mod laws;
pub mod topoi;
