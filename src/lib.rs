//! A client for a WebDAV file store and the parser of its directory listings.
//!
//! The parser turns the multi-status document that the store returns for a
//! listing request into one [`FileInfo`] per entry, in document order.
pub mod file;
pub mod laws;
pub mod listing;
pub mod text;
pub mod xml;

pub use file::FileInfo;
pub use listing::{parse_events, XmlEvent};
pub use xml::parse_xml;
