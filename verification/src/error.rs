//! Caller-visible kernel errors. Invalid syscall arguments degrade
//! gracefully into these; internal invariant violations are instead ruled
//! out by function contracts.

use vstd::prelude::*;
use vstd::string::StringExecFns;

verus! {

#[derive(Debug, Clone, PartialEq, Eq)]
pub enum KernelError {
    /// A request carried an argument the kernel rejects, such as an
    /// overlapping or unknown memory range.
    InvalidArgument(String),
    /// The physical frame pool cannot supply the frames the request needs.
    OutOfFrames,
}

impl KernelError {
    /// Render the error for diagnostics.
    pub fn message(&self) -> (r: String)
        ensures
            self matches KernelError::InvalidArgument(s) ==> r@ == "invalid argument error: "@
                + s@,
            self is OutOfFrames ==> r@ == "out of physical frames"@,
    {
        match self {
            KernelError::InvalidArgument(s) => {
                let m: String = String::from_str("invalid argument error: ");
                m.concat(s.as_str())
            },
            KernelError::OutOfFrames => String::from_str("out of physical frames"),
        }
    }
}

} // verus!
