//! How the outcome of a completion request is answered over HTTP.
use vstd::prelude::*;

verus! {

/// The outcome of a completion request, `R` being the completion response.
#[derive(Debug, Clone)]
pub enum CompletionResponder<R> {
    /// The completed response.
    Json(R),
    /// The model failed; the partial response comes along.
    ModelError(String, R),
    /// The server failed.
    InternalError(String),
    /// The request was refused.
    ValidationError(String),
}

/// HTTP status of each outcome.
pub open spec fn status_of<R>(r: CompletionResponder<R>) -> u16 {
    match r {
        CompletionResponder::Json(_) => 200,
        CompletionResponder::ModelError(_, _) => 500,
        CompletionResponder::InternalError(_) => 500,
        CompletionResponder::ValidationError(_) => 422,
    }
}

impl<R> CompletionResponder<R> {
    /// The HTTP status this outcome is answered with.
    pub fn status_code(&self) -> (r: u16)
        ensures
            r == status_of(*self),
    {
        match self {
            CompletionResponder::Json(_) => 200,
            CompletionResponder::ModelError(_, _) => 500,
            CompletionResponder::InternalError(_) => 500,
            CompletionResponder::ValidationError(_) => 422,
        }
    }
}

/// Body of an error answer.
#[derive(Debug, Clone)]
pub struct JsonError {
    pub message: String,
}

impl JsonError {
    pub fn new(message: String) -> (r: Self)
        ensures
            r.message == message,
    {
        JsonError { message }
    }
}

/// Body of a model-error answer: the message and the partial response.
#[derive(Debug, Clone)]
pub struct JsonModelError<R> {
    pub message: String,
    pub partial_response: R,
}

impl<R> JsonModelError<R> {
    pub fn new(message: String, partial_response: R) -> (r: Self)
        ensures
            r.message == message,
            r.partial_response == partial_response,
    {
        JsonModelError { message, partial_response }
    }
}

} // verus!
