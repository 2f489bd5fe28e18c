use vstd::prelude::*;

verus! {

/// Errors raised while validating and building a graph.
#[derive(Debug, Clone, PartialEq)]
pub enum ValidationError {
    ParseError(String),
    NodeNotFound(String),
    InvalidParameter(String),
    MissingRequiredParameter(String),
    ResourceNotFound(String),
    UnsupportedInKernel(String),
    NotKernelCapable(String),
    SelectionArity(String),
    Expansion(String),
}

/// Errors raised when addressing a parameter.
#[derive(Clone, Debug, PartialEq)]
pub enum ParamError {
    ParamNotFound,
    ParamMetaNotFound,
}

/// The position of a parameter in the parameter store.
#[derive(Clone, Debug, PartialEq, Hash)]
pub struct ParamKey(pub usize);

/// Errors surfaced by the application.
#[derive(Debug, PartialEq, Clone)]
pub enum LegatoError {
    ValidationError(ValidationError),
    ParamError(ParamError),
}

/// Errors surfaced by the control frontend.
pub enum FrontendError {
    NodeNotFound(),
}

} // verus!
