//! What a request handler hands back to the transport layer.

use vstd::prelude::*;

use crate::tree::{TreeError, TreeNode};

verus! {

/// The greeting served at the root of the service.
pub open spec fn greeting() -> Seq<char> {
    "hello world"@
}

/// Answers the root route.
pub fn hello() -> (body: &'static str)
    ensures
        body@ == greeting(),
{
    "hello world"
}


/// The status of a reply that reports a failure of the service itself.
pub const INTERNAL_SERVER_ERROR: u16 = 500;

/// A reply that reports a failure: the HTTP status and the text of the body.
#[derive(Clone, Debug, PartialEq, Eq)]
pub struct Failure {
    pub status: u16,
    pub message: String,
}

/// The reply to a request that the service could not serve.
pub fn internal_error(message: String) -> (f: Failure)
    ensures
        f.status == INTERNAL_SERVER_ERROR,
        f.message@ == message@,
{
    Failure { status: INTERNAL_SERVER_ERROR, message }
}

/// Answers the route of the navigation tree: the tree as it was built, or
/// the builder's error in words under the status of an internal error.
pub fn notes_tree(built: Result<Vec<TreeNode>, TreeError>) -> (r: Result<Vec<TreeNode>, Failure>)
    ensures
        match built {
            Ok(nodes) => r matches Ok(shown) && shown == nodes,
            Err(e) => r matches Err(f) && f.status == INTERNAL_SERVER_ERROR && f.message@
                == e.message_spec(),
        },
{
    match built {
        Ok(nodes) => Ok(nodes),
        Err(e) => Err(internal_error(e.message())),
    }
}

} // verus!
