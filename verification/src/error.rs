use vstd::prelude::*;

verus! {

broadcast use vstd::string::to_string_from_display_ensures_for_str;

/// The kinds of failure that the filesystem reports.
#[derive(Debug, Clone, Copy, PartialEq, Eq, Structural)]
pub enum FsError {
    /// An argument was out of the accepted range.
    InvalidInput,
    /// Stored data was not in the expected format.
    InvalidData,
    /// A tree node's stored checksum does not match the node's bytes.
    NodeChecksumMismatch,
    /// No space was left to satisfy the request.
    OutOfMemory,
    /// The requested object does not exist.
    NotFound,
    /// An object with the requested id already exists.
    AlreadyExists,
    /// Any other failure.
    Other,
}

/// The message that describes `e`.
pub open spec fn error_message(e: FsError) -> Seq<char> {
    match e {
        FsError::InvalidInput => "invalid input"@,
        FsError::InvalidData => "invalid data"@,
        FsError::NodeChecksumMismatch => "BTree Node Checksum Mismatch"@,
        FsError::OutOfMemory => "out of memory"@,
        FsError::NotFound => "entity not found"@,
        FsError::AlreadyExists => "entity already exists"@,
        FsError::Other => "other error"@,
    }
}

impl FsError {
    /// The message that describes this error.
    pub fn to_string(&self) -> (r: String)
        ensures
            r@ == error_message(*self),
    {
        match self {
            FsError::InvalidInput => "invalid input".to_string(),
            FsError::InvalidData => "invalid data".to_string(),
            FsError::NodeChecksumMismatch => "BTree Node Checksum Mismatch".to_string(),
            FsError::OutOfMemory => "out of memory".to_string(),
            FsError::NotFound => "entity not found".to_string(),
            FsError::AlreadyExists => "entity already exists".to_string(),
            FsError::Other => "other error".to_string(),
        }
    }
}

} // verus!
