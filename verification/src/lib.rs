//! Compiler for per-locale message resources.
//!
//! A directory of locale resource files (YAML or JSON) is turned into a
//! directly indexable table of messages: nested maps are flattened into
//! dotted paths, each leaf holds one or more plural variants, every
//! placeholder inside a message is located up front, and locales missing a
//! path inherit it from a designated source locale.

pub mod compile;
pub mod gen;
pub mod loader;
pub mod message;
pub mod ordmap;
pub mod plural;
pub mod resource;
pub mod result;
pub mod sample;
pub mod strutil;

pub use plural::message_index;
