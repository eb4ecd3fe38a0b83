//! Canonical XML (XML-C14N) for Rust.
//!
//! The library decides what each event of an XML document becomes in
//! canonical form: character references replaced, attribute values
//! normalised, attributes put in canonical order, superfluous namespace
//! declarations removed, white space outside the document element reduced,
//! the XML declaration and the document type declaration dropped, and
//! comments kept or dropped on request.

use vstd::prelude::*;

pub mod namespace;
pub mod text;
pub mod character_refs;
pub mod start;
pub mod canonicalizer;
pub mod laws;
pub mod attribute_order;
pub mod text_laws;
pub mod order_laws;
pub mod parse_laws;

pub use canonicalizer::{Canonicalization, Output, OutputKind, XmlEvent};
pub use character_refs::{canonicalize_character_references, canonicalize_character_reference, Situation};
pub use namespace::{DepthSensitiveMap, FlatMap, Namespace};
pub use start::{canonicalize_start_tag, Attribute, StartTag, StartTagError};

verus! {

} // verus!
