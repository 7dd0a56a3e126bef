//! Why a request cannot be signed.

use vstd::prelude::*;

verus! {

/// A failure of the signing pipeline; no canonical request comes with it.
#[derive(Debug)]
pub enum SignError {
    /// The named header's value is not printable ASCII.
    EncodingError { name: String },
    /// An object key is set without a bucket.
    InvalidRequestState,
}

} // verus!
