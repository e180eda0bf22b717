//! The status that the C interface reports.
use vstd::prelude::*;

verus! {

pub struct LfsApiStatus {
    pub success: bool,
    pub error_code: i32,
}

} // verus!
