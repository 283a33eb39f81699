//! The annotation document tree.
//!
//! One value of [`Annotations`] stands for one slide's annotation file:
//! a scale attribute and a sequence of layers.  Each layer carries a
//! type code (`"4"` for user-drawn regions, `"3"` for computed-analysis
//! regions), layer attributes, and a block of regions with an optional
//! list of attribute headers describing the meaning of the generic
//! per-region attribute slots.

use vstd::prelude::*;

verus! {

/// List of annotation layers for one slide.
pub struct Annotations {
    /// Scale in microns per pixel (assuming square aspect ratio).
    pub microns_per_pixel: String,
    /// The layers, in document order.
    pub annotation: Vec<Annotation>,
}

/// An annotation layer.
pub struct Annotation {
    /// Layer identifier.
    pub id: String,
    /// Display name of the layer.
    pub name: String,
    /// Layer type code: `"4"` marks user-drawn regions, `"3"` marks
    /// calculated data from analysis; other codes are ignored.
    pub annotation_type: String,
    /// Layer-level attributes.
    pub attributes: AnnotationAttributes,
    /// The layer's regions.
    pub regions: Regions,
}

/// The attribute list of a layer.
pub struct AnnotationAttributes {
    pub attribute: Option<Vec<AnnotationAttributesAttribute>>,
}

/// One layer-level attribute.
pub struct AnnotationAttributesAttribute {
    pub name: String,
    pub id: String,
    pub value: String,
}

/// The regions of one layer.
pub struct Regions {
    pub region_attribute_headers: RegionAttributeHeaders,
    pub region: Vec<Region>,
}

/// Meta-information describing the generic attribute slots shared by
/// the regions of a layer.
pub struct RegionAttributeHeaders {
    pub attribute_header: Option<Vec<AttributeHeader>>,
}

/// One attribute header: pairs a slot identifier with its
/// human-readable name.
pub struct AttributeHeader {
    pub id: String,
    pub name: String,
}

/// One drawn or computed region.
pub struct Region {
    pub id: String,
    pub region_type: String,
    pub length: String,
    pub area: String,
    pub length_microns: String,
    pub area_microns: String,
    /// Free-text label of a drawn region.
    pub text: String,
    pub negative_roa: String,
    pub analyze: String,
    /// The region's generic attribute values.
    pub attributes: RegionAttributes,
    /// Path of the region's extracted image, when present.
    pub image_location: Option<String>,
    /// Back-reference: the identifier of the drawn region that this
    /// computed region's statistics belong to.
    pub input_region_id: Option<String>,
}

/// The attribute list of a region.
pub struct RegionAttributes {
    pub attribute: Option<Vec<RegionAttributesAttribute>>,
}

/// One generic region attribute: a slot reference and its value.
pub struct RegionAttributesAttribute {
    pub name: String,
    pub id: String,
    pub value: String,
    pub display_color: String,
}

} // verus!
