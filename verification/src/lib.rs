//! Flattening of JSON documents into sorted `key value` lines.
//!
//! A document is read into a [`json::Json`] tree, each leaf of the tree is put
//! into a [`entries::KeyValues`] mapping under the dotted path that leads to
//! it, and the mapping is written out one line per entry, in the byte order of
//! the keys. [`convert::convert`] and [`convert::render`] do the whole of it.
//!
//! [`idempotence`] and [`rebuild`] show that what comes out, read back as a
//! document, flattens to itself.

pub mod convert;
pub mod entries;
pub mod error;
pub mod flatten;
pub mod idempotence;
pub mod json;
pub mod order;
pub mod parse;
pub mod path;
pub mod rebuild;
pub mod sanitize;
pub mod text;
