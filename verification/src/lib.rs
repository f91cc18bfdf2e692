//! Flattens nested XML-like document trees into flat, delimited records,
//! driven by a declarative mapping configuration.
//!
//! The crate has two verified components: the configuration compiler in
//! [`config`], which parses the mapping DSL into the read-only matching
//! tables of [`tables::Mapping`], and the traversal engine in [`engine`],
//! which walks one document tree against those tables and assembles output
//! records.  The document tree itself is the plain value type in [`xml`];
//! producing it from raw XML text, expanding file globs and writing bytes
//! are left to the caller.  [`laws`] states and proves properties that
//! relate the two components' specifications.

pub mod config;
pub mod engine;
pub mod laws;
pub mod output;
pub mod state;
pub mod tables;
pub mod xml;

pub use config::ConfigError;
pub use config::parse;
pub use engine::traverse;
pub use tables::Mapping;
pub use xml::Attribute;
pub use xml::Element;
