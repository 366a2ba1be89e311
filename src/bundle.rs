//! Errors of bundle application.
use vstd::prelude::*;

verus! {

/// Why a bundle could not add its units to a builder.
#[derive(Debug)]
pub enum BundleError {
    /// The renderer could not be built (a renderer error); holds the cause.
    Renderer(String),
}

} // verus!
