//! Plain data types shared by the fusion pipeline and its bindings.
use vstd::prelude::*;

verus! {

/// How a page's final content was sourced.
#[derive(Clone, Copy, Debug, PartialEq, Eq, Structural)]
pub enum PageContentSource {
    /// Native text extraction only.
    Native,
    /// OCR output only.
    Ocr,
    /// Native text with OCR additions.
    Fused,
}

} // verus!
