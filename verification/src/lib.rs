//! Verified core of OCR fusion and page rasterization for a PDF inspector:
//! Markdown comparison and fusion, OCR line-break recovery, page-set
//! validation and provenance, bounded PNG rasterization, and the value types
//! of the language bindings.
pub mod text;
pub mod compare;
pub mod merge;
pub mod model;
pub mod timing;
pub mod clock;
pub mod layout;
pub mod fusion;
pub mod raster;
pub mod bindings;
pub mod line_order;
