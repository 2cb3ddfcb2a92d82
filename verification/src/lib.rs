//! Converts an XML document into a JSON-shaped value tree: element nesting,
//! attributes, inline text, CDATA blocks and the relative order of mixed
//! content are preserved. The lexical tokenizing of raw XML is delegated to
//! the `quick-xml` crate; everything built on top of its event stream is
//! verified.
pub mod convert;
pub mod events;
pub mod laws;
pub mod node;
pub mod source;
pub mod value;

pub use convert::{events_to_value, Error, DEPTH_LIMIT};
pub use source::{read, to_json};
pub use value::{eq_value, Value};
