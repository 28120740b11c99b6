//! What a built-in operation hands to the process that called it when it
//! cannot give a result.

use vstd::prelude::*;

verus! {

/// Why an operation failed. The caller can tell the causes apart.
#[derive(Clone, Copy, PartialEq, Eq, Structural, Debug)]
pub enum Exception {
    /// The heap has no room for the result.
    Alloc,
    /// An argument is of the wrong type.
    TypeError,
    /// An argument is not acceptable for another reason.
    Badarg,
    /// An operand of an arithmetic operation is not a number it accepts.
    Badarith,
    /// A term that had to be a map is none.
    Badmap,
    /// A list does not end in the empty list.
    ImproperList,
}

} // verus!
