//! Keel: a data model description engine. Resources, fields and relations
//! are declared as data; the engine checks queries, grants and schema moves.

pub mod text;
pub mod error;
pub mod estate;
pub mod ddl;
pub mod life;
pub mod query;
pub mod atom;
pub mod bond;
pub mod plan;
pub mod spec;
pub mod wire;
pub mod store;
pub mod face;
pub mod cap;
pub mod serve;
pub mod config;
