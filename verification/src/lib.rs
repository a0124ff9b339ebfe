//! Border-color statistics for COCO-style datasets.
//!
//! Given a dataset of images, bounding-box annotations and categories, this
//! library indexes the three flat lists into id-keyed lookup tables, samples
//! the thin pixel rings just inside and just outside each annotation's
//! bounding box, and reduces the per-annotation mean colors into one
//! dataset-wide mean.

pub mod aggregate;
pub mod coco;
pub mod color;
pub mod error;
pub mod sampler;
