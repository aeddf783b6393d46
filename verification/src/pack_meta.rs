//! The pack-metadata document's value: names, id, and the optional
//! color-override block.
//!
//! The three color thresholds are fractional numbers that the codec
//! never interprets; they are carried as their raw number-token text so
//! that a read/write cycle reproduces them exactly.

use vstd::prelude::*;
use vstd::utf8::encode_utf8;
use crate::doc_lex::is_num_byte;

verus! {

/// A number token carried as text: nonempty, made of number bytes only.
pub open spec fn num_token_wf(t: Seq<char>) -> bool {
    &&& encode_utf8(t).len() >= 1
    &&& forall|i: int| 0 <= i < encode_utf8(t).len() ==> is_num_byte(#[trigger] encode_utf8(t)[i])
}

/// A pack id usable in entry paths: nonempty and free of separators.
pub open spec fn id_wf(id: Seq<char>) -> bool {
    id.len() >= 1 && forall|i: int| 0 <= i < id.len() ==> id[i] != '/'
}

/// Mathematical image of a [`ColorOverrides`] value.
pub struct ColorsV {
    pub enabled: bool,
    pub min_redness: Seq<char>,
    pub min_saturation: Seq<char>,
    pub red_tolerance: Seq<char>,
}

/// All three thresholds are well-formed number tokens.
pub open spec fn colors_wf(c: ColorsV) -> bool {
    num_token_wf(c.min_redness) && num_token_wf(c.min_saturation) && num_token_wf(c.red_tolerance)
}

/// Mathematical image of a [`PackMeta`] value.
pub struct MetaV {
    pub name: Seq<char>,
    pub id: Seq<char>,
    pub version: Seq<char>,
    pub author: Seq<char>,
    pub custom_color_overrides: Option<ColorsV>,
}

/// The color-override block, when present, holds well-formed tokens.
pub open spec fn meta_wf(m: MetaV) -> bool {
    match m.custom_color_overrides {
        Some(c) => colors_wf(c),
        None => true,
    }
}

/// The optional custom-color block of the pack metadata.  The three
/// thresholds keep their exact textual form from the document.
#[derive(Debug, PartialEq)]
pub struct ColorOverrides {
    pub enabled: bool,
    pub min_redness: String,
    pub min_saturation: String,
    pub red_tolerance: String,
}

impl View for ColorOverrides {
    type V = ColorsV;

    open spec fn view(&self) -> ColorsV {
        ColorsV {
            enabled: self.enabled,
            min_redness: self.min_redness@,
            min_saturation: self.min_saturation@,
            red_tolerance: self.red_tolerance@,
        }
    }
}

/// The pack-metadata document: descriptive strings and the archive's
/// namespace id, from which entry paths are re-derived on write.
#[derive(Debug, PartialEq)]
pub struct PackMeta {
    pub name: String,
    pub id: String,
    pub version: String,
    pub author: String,
    pub custom_color_overrides: Option<ColorOverrides>,
}

impl View for PackMeta {
    type V = MetaV;

    open spec fn view(&self) -> MetaV {
        MetaV {
            name: self.name@,
            id: self.id@,
            version: self.version@,
            author: self.author@,
            custom_color_overrides: match self.custom_color_overrides {
                Some(ref c) => Some(c@),
                None => None,
            },
        }
    }
}

impl PackMeta {
    pub open spec fn wf(&self) -> bool {
        meta_wf(self@)
    }
}

} // verus!
