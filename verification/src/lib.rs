//! Codec and maintenance tools for Dungeondraft asset-pack archives.
//!
//! An asset pack is a single binary file holding a version record, a
//! directory of file entries, and the payload bytes of every contained
//! file, among them two embedded JSON documents (the pack metadata and
//! the tag index).  This crate decodes such an archive into a structured
//! [`asset_pack::AssetPack`] value, re-encodes it with recomputed
//! offsets, and prunes dangling references from the tag index.

pub mod asset_pack;
pub mod containers;
pub mod doc_lex;
pub mod doc_meta;
pub mod doc_tags;
pub mod error;
pub mod file_meta_data;
pub mod godot_version;
pub mod pack_meta;
pub mod path_utils;
pub mod tags;
pub mod utf8_util;
pub mod utils;
pub mod wire;

use vstd::prelude::*;

verus! {

} // verus!
