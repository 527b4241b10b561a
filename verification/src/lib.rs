//! Rebasing of RDF triple text onto a caller's namespace, with the in-memory
//! triple sink and the input checks that surround a conversion.

pub mod text;
pub mod rewrite;
pub mod writer;
pub mod boundary;

pub use crate::boundary::{decode_input, finish_conversion, ConvertError};
pub use crate::rewrite::{apply_replacements, is_safe_base, DEFAULT_NAMESPACE};
pub use crate::writer::{MemoryWriter, RdfWriter};
