use vstd::prelude::*;

verus! {

/// The ways in which tagging one image can fail.
#[derive(Clone, Copy, Debug, PartialEq, Eq, Structural)]
pub enum PipelineError {
    /// No detection method recognised the encoded format.
    UnknownFormat,
    /// The format was recognised but the bytes did not decode to an image.
    CorruptImage,
    /// The canvas handed to the tensor stage does not have the expected size.
    ShapeError,
    /// The scorer failed, or its output does not fit the model's layout.
    InferenceError,
    /// The tag catalog could not be reached; no partial result is returned.
    CatalogUnavailable,
}

} // verus!
