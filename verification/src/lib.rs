//! The core of the Prism configuration engine, verified.
//!
//! Patches say how a proxy configuration is to change.  They are registered
//! with a compiler, which puts them in an order that honours their dependencies;
//! an executor applies them to a configuration and traces what they did; and a
//! target compiler writes the result for a proxy core.
//!
//! | Modules | What they hold |
//! |---------|----------------|
//! | [`value`], [`number`], [`text`], [`json_path`], [`json_text`], [`serial`], [`merge`] | documents, and what is done with them |
//! | [`ir`], [`scope`], [`source`], [`condition`] | patches, and where they apply |
//! | [`expr`], [`builtin`], [`predicate`], [`transform`] | the expressions of patches |
//! | [`graph`], [`compiler`], [`ops`], [`executor`], [`pipeline`], [`trace`] | resolution and execution |
//! | [`target`], [`output`], [`reload`], [`watcher`] | output for the cores |
//! | [`cache`], [`store`], [`migration`], [`failover`], [`duration`], [`perf`], [`sanitize`] | what surrounds the engine |
//! | [`error`], [`error_format`] | faults |
//!
//! What the standard library and other crates are trusted to do is stated in one
//! place, the private module `outside`.

pub mod assoc;
pub mod builtin;
pub mod cache;
pub mod compiler;
pub mod condition;
pub mod duration;
pub mod error;
pub mod error_format;
pub mod executor;
pub mod expr;
pub mod failover;
pub mod graph;
pub mod ir;
pub mod json_path;
pub mod json_text;
mod lexer;
pub mod merge;
pub mod migration;
pub mod number;
pub mod ops;
pub mod order;
pub mod output;
mod outside;
pub mod perf;
pub mod pipeline;
pub mod predicate;
pub mod reload;
pub mod sanitize;
pub mod scope;
pub mod serial;
pub mod source;
pub mod store;
pub mod target;
pub mod text;
pub mod trace;
pub mod transform;
pub mod value;
pub mod watcher;

pub use executor::{ExecutionContext, PatchExecutor};
pub use ops::{is_guarded_path, GUARDED_FIELDS};
pub use value::{Document, Object};
