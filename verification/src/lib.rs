//! Path-addressed read, auto-vivifying write, and delete operations over a
//! dynamically typed tree value (the JSON data model).

mod basic;
mod error;
mod ext;
mod laws;
mod model;
mod path;
mod value;

pub use basic::delete;
pub use basic::get;
pub use basic::get_mut;
pub use basic::update_or_create;
pub use error::Error;
pub use ext::DataPathExt;
pub use path::PathSeparator;
pub use value::SpecValue;
pub use value::Value;
