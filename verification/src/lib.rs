//! A declarative registry of people, teams, mailing lists and permissions,
//! with a validator for its structural invariants and a resolver that
//! computes which identities hold a permission.

pub mod data;
pub mod errors;
pub mod graph;
pub mod permissions;
pub mod query;
pub mod schema;
pub mod validate;
