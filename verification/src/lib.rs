//! Referentially-consistent fake-data seeding for relational schemas.
//!
//! The crate models a database schema (tables, columns, foreign keys),
//! derives a dependency order over the entities of a generation plan,
//! evaluates field templates into concrete values, and builds the typed
//! insert statements that persist each generated row.  Randomness and
//! calendar arithmetic are obtained from outside crates through narrow
//! trusted wrappers; everything else is verified.

pub mod config;
pub mod dates;
pub mod error;
pub mod generator;
pub mod graph;
pub mod lorem;
pub mod persist;
pub mod plan;
pub mod random;
pub mod rows;
pub mod schema;
pub mod seeder;
pub mod template;
pub mod value;
