//! Media types in the style of RFC 6838 and RFC 2045: `type/subtype[+suffix][; name=value ...]`.
//!
//! A media type is parsed from text without copying it, built and changed
//! from code, and written back as text. Every function states what it
//! returns over the bytes of the text.

pub mod bytes;
pub mod error;
pub mod text;
pub mod order;
pub mod name;
pub mod quoted;
pub mod value;
pub mod parse;
pub mod hashing;
pub mod params;
pub mod media_type;
pub mod round_trip;

pub use error::{Field, MediaTypeError, ValidationError};
pub use name::Name;
pub use media_type::MediaType;
pub use params::{Params, ReadParams, WriteParams};
pub use parse::{Indices, ParamIndices};
pub use value::Value;
