//! A small HTML document library: a streaming tokenizer and tree builder that
//! turns a raw character stream into an ordered, rooted document tree, plus a
//! declaration-list parser for `property: value;` style strings and a few
//! helpers around them.

pub mod text;
pub mod strmap;
pub mod dom;
pub mod tag;
pub mod parser;
pub mod show;
pub mod laws;
pub mod css;
pub mod layout;
pub mod request;
