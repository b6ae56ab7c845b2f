//! Text extraction with provenance for laid-out documents.
//!
//! The crate walks a document's pages — trees of positioned frames holding
//! text runs, shapes, images and metadata — and produces plain-text chunks
//! together with a mapping that records, for every emitted character, which
//! source-file location produced it.  A reverse lookup turns an offset range
//! over one chunk back into the coalesced source ranges underlying it.

pub mod convert;
pub mod locate;
pub mod model;
