//! A dot/bracket path-query engine for a JSON-shaped value tree.
//!
//! A path such as `store.book[1].title` is split into steps, each step a
//! plain key or a key followed by one array index.  The steps are walked
//! over an in-memory [`value::JsonValue`] tree, and the resolved location can
//! be read, overwritten, or deleted.  Writes autocreate missing
//! intermediate object members; reads fail on them.

pub mod codec;
pub mod coerce;
pub mod error;
pub mod json;
pub mod laws;
pub mod path;
pub mod render;
pub mod resolve;
pub mod value;
