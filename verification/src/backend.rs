//! The reconstruction backends: their names and the stages the model-based
//! backend does not provide yet.
use vstd::prelude::*;
use crate::error::OpenSpaceError;

verus! {

/// Classical geometric reconstruction (the default).
pub struct GeometricBackend;

/// Placeholder for a learned reconstruction backend; every stage is unsupported.
pub struct OnnxBackend;

impl GeometricBackend {
    pub fn name(&self) -> (r: &'static str)
        ensures
            r@ == "geometric"@,
    {
        "geometric"
    }
}

/// A stage of reconstruction.
#[derive(Debug, Clone, Copy, PartialEq, Eq, Structural)]
pub enum Stage {
    Detect,
    Mesh,
    Texture,
}

/// The explanation given when the learned backend is asked for a stage.
pub open spec fn onnx_stage_text(stage: Stage) -> Seq<char> {
    match stage {
        Stage::Detect => "OnnxBackend::detect is not implemented yet; use GeometricBackend"@,
        Stage::Mesh => "OnnxBackend::mesh is not implemented yet"@,
        Stage::Texture => "OnnxBackend::texture is not implemented yet"@,
    }
}

impl OnnxBackend {
    pub fn name(&self) -> (r: &'static str)
        ensures
            r@ == "onnx"@,
    {
        "onnx"
    }

    /// The error every stage of this backend answers with.
    pub fn unsupported(&self, stage: Stage) -> (e: OpenSpaceError)
        ensures
            e matches OpenSpaceError::Unsupported(m) && m@ == onnx_stage_text(stage),
    {
        let m = match stage {
            Stage::Detect => "OnnxBackend::detect is not implemented yet; use GeometricBackend",
            Stage::Mesh => "OnnxBackend::mesh is not implemented yet",
            Stage::Texture => "OnnxBackend::texture is not implemented yet",
        };
        OpenSpaceError::Unsupported(String::from_str(m))
    }
}

} // verus!
