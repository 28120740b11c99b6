//! `orelse/2` infix operator.
//!
//! Short-circuiting: the right operand is returned as it is when the left
//! one is `false`, and need not be a boolean.

use vstd::prelude::*;
use crate::exception::Exception;
use crate::term::{Term, ATOM_FALSE, ATOM_TRUE};

verus! {

/// The left operand if it is `true`, the right one if the left is `false`;
/// an error for a left operand that is no boolean.
pub fn result(left_boolean: Term, right_term: Term) -> (r: Result<Term, Exception>)
    ensures
        r == (if left_boolean == Term::Atom(ATOM_TRUE) {
            Ok::<Term, Exception>(left_boolean)
        } else if left_boolean == Term::Atom(ATOM_FALSE) {
            Ok(right_term)
        } else {
            Err(Exception::Badarg)
        }),
{
    match left_boolean.to_bool() {
        Some(true) => Ok(left_boolean),
        Some(false) => Ok(right_term),
        None => Err(Exception::Badarg),
    }
}

} // verus!
