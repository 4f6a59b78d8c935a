//! Errors of the library's own operations. Each carries enough to rebuild
//! the human-readable message that travels up the tree inside an error
//! response.

use vstd::prelude::*;

verus! {

/// Why an operation of the library failed.
#[derive(Debug)]
pub enum TbonError {
    /// A pivot found no slot with free fanout.
    CapacityExhausted,
    /// A child answered an aggregation query with an error response; the
    /// field holds the child's message.
    ChildFailed(String),
    /// A response did not carry the variant the query calls for; the field
    /// holds the full message.
    BadResponse(String),
}

impl TbonError {
    /// The message of this error, as a character sequence.
    pub open spec fn spec_message(&self) -> Seq<char> {
        match self {
            TbonError::CapacityExhausted => "Failed to join a root"@,
            TbonError::ChildFailed(e) => "Failed to run query : "@ + e@,
            TbonError::BadResponse(m) => m@,
        }
    }

    /// Renders the message that callers report or send upstream.
    pub fn message(&self) -> (m: String)
        ensures
            m@ == self.spec_message(),
    {
        match self {
            TbonError::CapacityExhausted => String::from_str("Failed to join a root"),
            TbonError::ChildFailed(e) => {
                let mut m = String::from_str("Failed to run query : ");
                m.append(e.as_str());
                m
            },
            TbonError::BadResponse(m) => m.clone(),
        }
    }
}

} // verus!
