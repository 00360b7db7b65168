//! The library's error type and its display text.
use vstd::prelude::*;
use crate::text::concat_str;

verus! {

/// Errors reported by the reconstruction pipeline.
#[derive(Debug)]
pub enum OpenSpaceError {
    Unsupported(String),
    InvalidFloorplan(String),
    Io(String),
    NotFound(String),
    BadRequest(String),
    Internal(String),
}

/// The display text of an error: a fixed prefix followed by its detail.
pub open spec fn error_text(e: OpenSpaceError) -> Seq<char> {
    match e {
        OpenSpaceError::Unsupported(d) => "unsupported backend: "@ + d@,
        OpenSpaceError::InvalidFloorplan(d) => "invalid floorplan: "@ + d@,
        OpenSpaceError::Io(d) => "io error: "@ + d@,
        OpenSpaceError::NotFound(d) => "not found: "@ + d@,
        OpenSpaceError::BadRequest(d) => "bad request: "@ + d@,
        OpenSpaceError::Internal(d) => "internal: "@ + d@,
    }
}

impl OpenSpaceError {
    /// Human-readable text of the error, as shown to API clients.
    pub fn message(&self) -> (r: String)
        ensures
            r@ == error_text(*self),
    {
        match self {
            OpenSpaceError::Unsupported(d) => concat_str("unsupported backend: ", d.as_str()),
            OpenSpaceError::InvalidFloorplan(d) => concat_str("invalid floorplan: ", d.as_str()),
            OpenSpaceError::Io(d) => concat_str("io error: ", d.as_str()),
            OpenSpaceError::NotFound(d) => concat_str("not found: ", d.as_str()),
            OpenSpaceError::BadRequest(d) => concat_str("bad request: ", d.as_str()),
            OpenSpaceError::Internal(d) => concat_str("internal: ", d.as_str()),
        }
    }
}

} // verus!
