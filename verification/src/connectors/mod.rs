//! The kinds of place a source can be.

pub mod adls;
pub mod fabric;
pub mod files;
pub mod folder;
pub mod mongo;
pub mod mssql;
pub mod mysql;
pub mod pools;
pub mod postgres;
pub mod rows;
