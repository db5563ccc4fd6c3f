//! Class metadata extraction from Java bytecode containers, and aggregation
//! of per-class facts observed across many distributions.

pub mod attributes;
pub mod bytes;
pub mod catalog;
pub mod class;
pub mod consistency;
pub mod constants;
pub mod error;
pub mod image;
pub mod jar;
pub mod mutf8;
pub mod order;
pub mod versions;

pub use error::Error;
pub use error::ConstantKind;
pub use mutf8::{decode_mutf8, mutf8_units, utf16_scalars};
pub use attributes::{Attribute, FieldConstant};
pub use constants::{Constant, Constants};
pub use class::{Class, Member};
pub use consistency::Consistency;
pub use versions::render_versions;
pub use catalog::{fill_span, Catalog, CatalogEntry, EquivalenceSpan, ReportRow};
pub use jar::Jar;
pub use image::{
    check_resource_size, choose_layout, decode_resource, image_class_path, image_lookup,
    is_class_extension, JdkLayout,
    MAX_RESOURCE_SIZE,
};
