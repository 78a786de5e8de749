//! Small functions used in the expressions of the user interface.
use vstd::prelude::*;

verus! {

/// The functions of the user-interface expressions.
pub struct Utility {}

impl Utility {
    /// Either flag.
    pub fn or(b1: bool, b2: bool) -> (r: bool)
        ensures
            r == (b1 || b2),
    {
        b1 || b2
    }

    /// The opposite flag.
    pub fn not(b: bool) -> (r: bool)
        ensures
            r == !b,
    {
        !b
    }

    /// Whether a text is missing or empty.
    pub fn is_empty(value: Option<String>) -> (r: bool)
        ensures
            r == (match value {
                Some(s) => s@.len() == 0,
                None => true,
            }),
    {
        match value {
            Some(s) => s.as_str().unicode_len() == 0,
            None => true,
        }
    }
}

} // verus!
