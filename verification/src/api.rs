//! The response envelope and error taxonomy shared by the read paths that
//! the HTTP layer serves.
use vstd::prelude::*;

use crate::store::StoreError;

verus! {

/// Metadata attached to every response: the source commit the data came
/// from, and when that commit was last seen.
#[derive(Debug)]
pub struct Meta {
    pub commit: String,
    pub updated_at: u64,
}

/// A response envelope: metadata plus the payload.
#[derive(Debug)]
pub struct APIResponse<T> {
    pub meta: Meta,
    pub result: T,
}

/// What a read path reports to the HTTP layer when it cannot serve.
#[derive(Debug)]
pub enum APIError {
    /// The query matched nothing.
    NotFound,
    /// The request itself was malformed.
    BadRequest(String),
    /// An internal failure, never echoed to the client in detail.
    InternalServerError(String),
}

/// Wraps an internal failure message in the API taxonomy.
pub fn internal_error(err: String) -> (r: APIError)
    ensures
        r == APIError::InternalServerError(err),
{
    APIError::InternalServerError(err)
}

/// Maps a store error to the API taxonomy: a missing row is reported as
/// not found, everything else as an internal failure.
pub fn from_db_error(err: StoreError) -> (r: APIError)
    ensures
        err is RowNotFound ==> r is NotFound,
        !(err is RowNotFound) ==> r is InternalServerError,
{
    match err {
        StoreError::RowNotFound => APIError::NotFound,
        _ => APIError::InternalServerError("database error".to_owned()),
    }
}

} // verus!
