//! Named text fragments — literal lists, script-generated values, and
//! queries that embed `#{id}` references to other fragments — together
//! with the parser for the placeholder grammar and the engine that
//! substitutes references, depth first and with cycle detection, until
//! every query is a flat string.
//!
//! The parser and the resolution engine carry full contracts: the
//! grammar round-trips every input, resolution preserves ids and order,
//! substitutes each reference by its target's final rendered text, is
//! idempotent once a store is resolved, and is owed success on any
//! closed store whose reference graph a ranking certifies as acyclic
//! and whose scripts have already run. The scripts themselves run in an
//! embedded Python interpreter behind a small trusted boundary.

pub mod components;
pub mod config;
pub mod error;
pub mod generator;
pub mod list;
pub mod meta;
pub mod parser;
mod python;
pub mod query;
pub mod script;
pub mod store;

pub use components::{Id, Identify, Q3Components};
pub use config::{Config, ConfigElement, ConfigEntry, GeneratorConfig, ListConfig, PathOrValue,
    QueryConfig};
pub use error::Q3Error;
pub use generator::Generator;
pub use list::List;
pub use meta::Meta;
pub use parser::{parse_query, Q3Ast};
pub use query::Query;
pub use store::QStore;
