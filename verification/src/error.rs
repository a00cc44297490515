//! The error taxonomy: the closed set of failure kinds shared by every
//! route, each with its HTTP status and its rendered description.

use vstd::prelude::*;
use vstd::string::*;
use crate::codec::DecodeErr;

verus! {

/// A failure of the request pipeline.
#[derive(Debug)]
pub enum PipelineError {
    /// The request body failed to decode into the handler's input type.
    InvalidPayload(String),
    /// An I/O failure while reading the body or writing the response.
    InternalIoError(String),
    /// A generic internal failure, covering storage errors whose kind was
    /// not propagated.
    CannotFulfil,
    /// A referenced record does not exist.
    NotFound(String),
}

pub type PipelineResult<T> = Result<T, PipelineError>;

impl PipelineError {
    /// The HTTP status each failure kind maps to.
    pub open spec fn spec_status(&self) -> int {
        match self {
            PipelineError::InvalidPayload(_) => 400,
            PipelineError::InternalIoError(_) => 500,
            PipelineError::CannotFulfil => 500,
            PipelineError::NotFound(_) => 404,
        }
    }

    pub fn http_status(&self) -> (s: u16)
        ensures
            s as int == self.spec_status(),
    {
        match self {
            PipelineError::InvalidPayload(_) => 400,
            PipelineError::InternalIoError(_) => 500,
            PipelineError::CannotFulfil => 500,
            PipelineError::NotFound(_) => 404,
        }
    }

    /// The human-readable description rendered into the error envelope.
    pub open spec fn spec_describe(&self) -> Seq<char> {
        match self {
            PipelineError::InvalidPayload(e) => "Invalid request payload: "@ + e@,
            PipelineError::InternalIoError(e) => "Internal IO error: "@ + e@,
            PipelineError::CannotFulfil => "Cannot fulfil request"@,
            PipelineError::NotFound(s) => "Not found: "@ + s@,
        }
    }

    pub fn describe(&self) -> (r: String)
        ensures
            r@ == self.spec_describe(),
    {
        match self {
            PipelineError::InvalidPayload(e) => {
                let mut s = "Invalid request payload: ".to_owned();
                s.append(e.as_str());
                s
            },
            PipelineError::InternalIoError(e) => {
                let mut s = "Internal IO error: ".to_owned();
                s.append(e.as_str());
                s
            },
            PipelineError::CannotFulfil => "Cannot fulfil request".to_owned(),
            PipelineError::NotFound(m) => {
                let mut s = "Not found: ".to_owned();
                s.append(m.as_str());
                s
            },
        }
    }

    /// The pipeline failure a body decode error turns into: every decode
    /// failure is an invalid payload carrying the decoder's diagnostic.
    pub fn from_decode(e: &DecodeErr) -> (r: PipelineError)
        ensures
            (r matches PipelineError::InvalidPayload(d) && d@ == e.spec_describe()),
    {
        PipelineError::InvalidPayload(e.describe())
    }
}

} // verus!
