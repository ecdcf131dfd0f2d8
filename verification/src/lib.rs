//! Alkyon: a portable workbench for SQL, files and the places both live.
//!
//! The library holds the rules: how a buffer is read, what a source record may
//! say, how names are made safe for SQL, what is remembered and what is refused.
//! Everything that touches a disk, a socket or a database stays outside.

pub mod api;
pub mod assets;
pub mod azure;
pub mod connectors;
pub mod error;
pub mod federation;
pub mod json;
pub mod llm;
pub mod model;
pub mod order;
pub mod paths;
pub mod schema;
pub mod settings;
pub mod startup;
pub mod state;
pub mod table;
pub mod text;
pub mod tree;
pub mod vault;
pub mod workspace;
