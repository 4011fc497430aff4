//! Errors raised by the request pipeline and the configuration builders.
use vstd::prelude::*;

verus! {

/// What went wrong; each variant that answers a client carries the status code
/// that the client receives.
#[derive(Debug)]
pub enum CbltError {
    /// The request could not be parsed.
    RequestError { details: String, status_code: u16 },
    /// The directive does not apply to the request; the pipeline moves on.
    DirectiveNotMatched,
    /// The directive applies but ends with an error response.
    ResponseError { details: String, status_code: u16 },
    /// A number in the configuration is malformed.
    ParseIntError { details: String },
    /// A duration in the configuration is malformed.
    DurationError { details: String },
    /// The configuration document breaks a rule of its format.
    KdlParseError { details: String },
    /// A labelled service has no name.
    ServiceNameNotFound,
    /// A container carries no names.
    ContainerNameNotFound,
    /// A required service label is absent.
    LabelNotFound { details: String },
    /// A service label holds a malformed value.
    InvalidLabelFormat { details: String },
}

impl CbltError {
    /// Whether this is a response error with the given status.
    pub open spec fn is_response(&self, status: u16) -> bool {
        self is ResponseError && self->ResponseError_status_code == status
    }
}

/// A response error with a status code and a short explanation.
pub fn response_error(details: &str, status_code: u16) -> (r: CbltError)
    ensures
        r.is_response(status_code),
{
    CbltError::ResponseError { details: details.to_string(), status_code }
}

} // verus!
