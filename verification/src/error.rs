//! Decode and encode failures of the archive codec.

use vstd::prelude::*;

verus! {

/// Which embedded JSON document a schema failure concerns.
#[derive(Debug, PartialEq, Eq, Structural, Clone, Copy)]
pub enum DocKind {
    PackMetaDoc,
    TagsDoc,
}

/// A classified failure while decoding an archive.
///
/// `Truncated` and `MissingMeta` are structural errors (the stream ended
/// inside a required field, or no pack-metadata document exists);
/// `Encoding` reports non-UTF-8 path or document bytes; `Schema` reports
/// an embedded document that is UTF-8 but does not parse against its
/// expected shape, carrying the raw document text for human diagnosis.
/// A magic-marker mismatch is deliberately not an error: the format
/// tolerates it, and [`crate::asset_pack::has_pack_magic`] lets a caller
/// warn about it.
#[derive(Debug)]
pub enum PackError {
    Truncated,
    MissingMeta,
    Encoding,
    Schema { doc: DocKind, raw: String },
}

/// Mathematical image of a [`PackError`].
pub enum ErrSpec {
    Truncated,
    MissingMeta,
    Encoding,
    Schema { doc: DocKind, raw: Seq<char> },
}

impl View for PackError {
    type V = ErrSpec;

    open spec fn view(&self) -> ErrSpec {
        match self {
            PackError::Truncated => ErrSpec::Truncated,
            PackError::MissingMeta => ErrSpec::MissingMeta,
            PackError::Encoding => ErrSpec::Encoding,
            PackError::Schema { doc, raw } => ErrSpec::Schema { doc: *doc, raw: raw@ },
        }
    }
}

/// A failure while encoding an archive: some length or offset does not
/// fit the signed 32- or 64-bit slot the layout gives it.
#[derive(Debug, PartialEq, Eq, Structural, Clone, Copy)]
pub enum EncodeError {
    TooLarge,
}

} // verus!
