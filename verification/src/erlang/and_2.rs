//! `and/2` infix operator.
//!
//! Not short-circuiting: both operands have to be booleans.

use vstd::prelude::*;
use crate::exception::Exception;
use crate::term::{Term, ATOM_FALSE, ATOM_TRUE};

verus! {

/// True if the term is one of the two boolean atoms.
pub open spec fn is_boolean(t: Term) -> bool {
    t == Term::Atom(ATOM_TRUE) || t == Term::Atom(ATOM_FALSE)
}

/// `true` if both operands are `true`, `false` if both are booleans and
/// one is `false`; an error for an operand that is no boolean.
pub fn result(left_boolean: Term, right_boolean: Term) -> (r: Result<Term, Exception>)
    ensures
        r == (if is_boolean(left_boolean) && is_boolean(right_boolean) {
            Ok::<Term, Exception>(
                if left_boolean == Term::Atom(ATOM_TRUE) && right_boolean == Term::Atom(ATOM_TRUE) {
                    Term::Atom(ATOM_TRUE)
                } else {
                    Term::Atom(ATOM_FALSE)
                },
            )
        } else {
            Err(Exception::Badarg)
        }),
{
    match (left_boolean.to_bool(), right_boolean.to_bool()) {
        (Some(left), Some(right)) => Ok(Term::from_bool(left && right)),
        _ => Err(Exception::Badarg),
    }
}

} // verus!
