//! Extraction of tabular positivity summaries from pathology slide
//! annotation documents.
//!
//! An annotation document holds a sequence of layers; user-drawn layers
//! (type "4") carry text labels for regions, computed-analysis layers
//! (type "3") carry per-region statistics that refer back to the drawn
//! regions by identifier.  The library reconciles the two into one record
//! per region and renders the records as CSV rows.

pub mod decimal;
pub mod doc;
pub mod emit;
pub mod reconcile;
pub mod region_info;
pub mod text;

pub use doc::{
    Annotation, AnnotationAttributes, AnnotationAttributesAttribute, Annotations, AttributeHeader,
    Region, RegionAttributeHeaders, RegionAttributes, RegionAttributesAttribute, Regions,
};
pub use region_info::RegionInfo;
