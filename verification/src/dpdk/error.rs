//! DPDK error numbers.

use vstd::prelude::*;
use vstd::string::*;

use crate::text;

verus! {

/// Tiny wrapper around DPDK errors.
#[derive(Debug, Clone, Copy, PartialEq, Eq, Structural)]
pub struct Error {
    pub errno: i32,
}

impl Error {
    /// The error number.
    pub open spec fn number(self) -> i32 {
        self.errno
    }

    /// Constructs an error from its number.
    pub fn new(errno: i32) -> (r: Self)
        ensures
            r.number() == errno,
    {
        Error { errno }
    }

    /// Returns the error number.
    pub fn errno(&self) -> (r: i32)
        ensures
            r == self.number(),
    {
        self.errno
    }

    /// Renders the error with the description that DPDK gives of its number.
    pub fn message(&self, description: &str) -> (r: String)
        ensures
            r@ == "["@ + text::signed_decimal(self.number() as int) + "]: "@ + description@,
    {
        let mut out: String = "[".to_owned();
        text::push_signed_decimal(&mut out, self.errno as i64);
        out.append("]: ");
        out.append(description);
        out
    }
}

impl From<i32> for Error {
    fn from(v: i32) -> (r: Self) {
        Error { errno: v }
    }
}

impl vstd::std_specs::convert::FromSpecImpl<i32> for Error {
    open spec fn obeys_from_spec() -> bool {
        true
    }

    open spec fn from_spec(v: i32) -> Self {
        Error { errno: v }
    }
}

} // verus!
