//! Compiler-backed code graphs: a language-neutral snapshot that semantic
//! providers produce and consumers query.

pub mod capsule;
pub mod scip_decode;
pub mod connect;
pub mod coupling;
pub mod graph_index;
pub mod index;
pub mod integrity;
pub mod model;
pub mod query;
pub mod scip_provider;
