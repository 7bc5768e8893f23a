//! YAML reference resolution and value conversion.
//!
//! The crate turns a parsed YAML document tree into a host-neutral value
//! tree: aliases and merge keys (`<<`) are expanded into an alias-free
//! tree, which is then converted into a generic value model (null,
//! boolean, integer, float text, string, ordered list, ordered pair
//! table). Textual YAML parsing is delegated to `yaml_rust2`.

pub mod assoc;
pub mod convert;
pub mod engine;
pub mod node;
pub mod numeric;
pub mod parse;
pub mod resolve;

pub use convert::{convert, ConvertError, Value};
pub use node::Node;
pub use parse::{parse, parse_documents, parse_with, AliasMode, KeyPolicy, ParseFailure};
pub use resolve::{resolve_aliases, ResolveError};
