//! Go-to-definition for Monkey C sources.
//!
//! - [`workspace`] holds the sources that names are resolved against, and [`scan`] finds them under a
//!   directory.
//! - [`symbols`] turns the [`ast`] of a source into a tree of scopes, and looks names up in it.
//! - [`definition`] reads the name under a caret off the source's tokens ([`token`]) and answers with
//!   every declaration that it could refer to.
//! - [`uri`] converts between `file:` URIs and [`path`]s, which are what sources are keyed by.
//!
//! What holds of all this together stands in [`laws`].
//!
//! Nothing here touches the disk, lexes or parses: what was read, and what a lexer and a parser made
//! of it, is handed in.
pub mod ascii;
pub mod ast;
pub mod definition;
pub mod laws;
pub mod order;
pub mod path;
pub mod prefix;
pub mod scan;
pub mod seqs;
pub mod symbols;
pub mod text;
pub mod token;
pub mod uri;
pub mod workspace;
