//! Resolving `.luaurc` aliases in Luau source.
//!
//! A `.luaurc` file gives short names to directories. Scripts then write
//! `require("@name/path")`, and this library rewrites such calls to relative
//! paths such as `require("../../Packages/path")`.
//!
//! - [`path`]: paths as sequences of components.
//! - [`aliases`]: the table of aliases of one `.luaurc`.
//! - [`search`]: which `.luaurc` counts for a script.
//! - [`syntax`], [`reader`], [`visit`]: finding the calls in a script.
//! - [`replace`]: replacing spans of text.
//! - [`resolve`]: putting it together.
//! - [`laws`]: what holds of the library as a whole.
pub mod aliases;
pub mod error;
pub mod laws;
pub mod path;
pub mod reader;
pub mod replace;
pub mod resolve;
pub mod search;
pub mod syntax;
pub mod text;
pub mod visit;
