//! Reference resolution for the manifests of self-describing data bundles.
//!
//! A manifest is a [`Document`]. Two kinds of indirection may stand in it: a
//! key that begins with `@` holds a URI whose document is to be spliced in,
//! and a key that begins with `>` holds the identifier of another object of
//! the same manifest. [`resolve_remote`] and [`resolve_relative`] take these
//! out, and [`validate`] checks the shape of the result. Nothing here reads
//! a file or opens a connection: the caller retrieves what `resolve_remote`
//! asks for.
//!
//! [`parse_metadata`] reads the `key = value` lines that describe one file.

pub mod text;
pub mod document;
pub mod error;
pub mod parse;
pub mod index;
pub mod remote;
pub mod relative;
pub mod validate;
pub mod metadata;

pub use document::{Document, Entry};
pub use error::{ResolveError, ValidationError};
pub use index::{build_index, extract_objects, ObjectIndex};
pub use metadata::{parse_metadata, Descriptor, InvalidMetadataError, Metadata};
pub use parse::parse_document;
pub use relative::{resolve_relative, strip_id};
pub use remote::{resolve_remote, RemoteStep};
pub use validate::{validate, validate_with};
