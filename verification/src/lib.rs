//! tagwiki: a tag-organized note store.
//!
//! Pages are written in a lightweight markup format with an optional
//! `key: value` metadata header.  Tags are `#word` tokens extracted from the
//! body; a page's identity is either declared in the header or derived from a
//! hash of its content.  An in-memory index answers ordered tag-intersection
//! queries and wraps a store that keeps one file per page.

pub mod cli;
pub mod index;
pub mod page;
pub mod strmap;
pub mod util;
pub mod text;
pub mod web;
