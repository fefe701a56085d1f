//! EDR exception responses.
//!
//! OGC API - EDR reports an error as a `code` and a `description`, so every
//! failure surfaces as an [`EdrError`].
use vstd::prelude::*;

use crate::json::{self, Fields, Json, Tree};

verus! {

#[derive(Debug)]
pub enum EdrError {
    /// A query parameter is missing, malformed, or out of range.
    BadRequest(String),
    /// No collection with the requested id, or nothing selected.
    NotFound(String),
    /// A well-formed request that this server does not support.
    NotSupported(String),
    /// The request is valid but would read more of the store than the server
    /// is willing to serve in one response.
    TooLarge(String),
    /// Anything that went wrong while reading the store or running the query.
    Internal(String),
}

pub type EdrResult<T> = Result<T, EdrError>;

/// What an [`EdrError`] says.
pub enum Fault {
    BadRequest(Seq<char>),
    NotFound(Seq<char>),
    NotSupported(Seq<char>),
    TooLarge(Seq<char>),
    Internal(Seq<char>),
}

impl Fault {
    /// The HTTP status of a fault.
    pub open spec fn code(self) -> u16 {
        match self {
            Fault::BadRequest(_) => 400,
            Fault::NotFound(_) => 404,
            Fault::NotSupported(_) => 400,
            Fault::TooLarge(_) => 413,
            Fault::Internal(_) => 500,
        }
    }

    pub open spec fn message(self) -> Seq<char> {
        match self {
            Fault::BadRequest(m) => m,
            Fault::NotFound(m) => m,
            Fault::NotSupported(m) => m,
            Fault::TooLarge(m) => m,
            Fault::Internal(m) => m,
        }
    }
}

impl View for EdrError {
    type V = Fault;

    open spec fn view(&self) -> Fault {
        match self {
            EdrError::BadRequest(m) => Fault::BadRequest(m@),
            EdrError::NotFound(m) => Fault::NotFound(m@),
            EdrError::NotSupported(m) => Fault::NotSupported(m@),
            EdrError::TooLarge(m) => Fault::TooLarge(m@),
            EdrError::Internal(m) => Fault::Internal(m@),
        }
    }
}

/// A result, with the error by what it says.
pub open spec fn outcome<T>(r: EdrResult<T>) -> Result<T, Fault> {
    match r {
        Ok(v) => Ok(v),
        Err(e) => Err(e@),
    }
}

impl EdrError {
    /// The HTTP status that the error is answered with.
    pub fn status(&self) -> (r: u16)
        ensures
            r == self@.code(),
    {
        match self {
            EdrError::BadRequest(_) => 400,
            EdrError::NotFound(_) => 404,
            EdrError::NotSupported(_) => 400,
            EdrError::TooLarge(_) => 413,
            EdrError::Internal(_) => 500,
        }
    }

    pub fn description(&self) -> (r: &str)
        ensures
            r@ == self@.message(),
    {
        match self {
            EdrError::BadRequest(m) => m.as_str(),
            EdrError::NotFound(m) => m.as_str(),
            EdrError::NotSupported(m) => m.as_str(),
            EdrError::TooLarge(m) => m.as_str(),
            EdrError::Internal(m) => m.as_str(),
        }
    }
}

impl Fault {
    /// The document that a fault is answered with.
    pub open spec fn document(self) -> Tree {
        Tree::Object(
            json::no_fields().push(("code"@, Tree::Count(self.code() as usize))).push(
                ("description"@, json::t(self.message())),
            ),
        )
    }
}

impl EdrError {
    /// The document that the error is answered with: its status as `code`, and a
    /// `description`.
    pub fn body(&self) -> (r: Json)
        ensures
            json::tree(r) == self@.document(),
    {
        let mut f = Fields::new();
        f.put("code", Json::Count(self.status() as usize));
        f.put_text("description", self.description());
        f.done()
    }
}

/// A fault is answered with its status as `code`, and with what it says as
/// `description`: a request that is malformed or not supported with 400, one that
/// finds nothing with 404, one that asks for too much with 413, and a failure of
/// the server with 500.
pub proof fn a_fault_is_answered_by_its_kind(message: Seq<char>)
    ensures
        answers(Fault::BadRequest(message), 400, message),
        answers(Fault::NotSupported(message), 400, message),
        answers(Fault::NotFound(message), 404, message),
        answers(Fault::TooLarge(message), 413, message),
        answers(Fault::Internal(message), 500, message),
{
    broadcast use json::what_is_put_is_found;

    reveal_strlit("code");
    reveal_strlit("description");
    assert("code"@.len() == 4 && "description"@.len() == 11);
}

/// Whether a fault has a status, and its document shows that and a description.
pub open spec fn answers(fault: Fault, status: u16, description: Seq<char>) -> bool {
    &&& fault.code() == status
    &&& json::member(fault.document(), "code"@) == Some(Tree::Count(status as usize))
    &&& json::member(fault.document(), "description"@) == Some(Tree::Text(description))
}

} // verus!
