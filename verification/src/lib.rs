//! Convert line-oriented SQL dump files of wiki `page` and `pagelinks`
//! tables into line-oriented RDF triple text.
//!
//! The crate provides the verified core: a value-row lexer for
//! `INSERT INTO ... VALUES` lines, decoders that turn rows into `Page`
//! and `Link` entities, the read-only `PageIndex` used for link
//! resolution, triple serialization, and the decision logic of the
//! three-stage streaming pipeline. File and network I/O, compression,
//! threads and the command line live outside the library.

pub mod index;
pub mod links;
pub mod pages;
pub mod pipeline;
pub mod sql;
pub mod utils;
