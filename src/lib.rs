//! A map from keys to values of varying types, all stored packed in one byte
//! buffer. Each stored value carries a type tag that every later access must
//! match.

pub mod layout;
pub mod storable;
pub mod table;
pub mod map;

pub use map::{Keys, PolyMap, Released};
pub use storable::{Handle, Storable};
