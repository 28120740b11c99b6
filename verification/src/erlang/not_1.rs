//! `not/1` prefix operator.

use vstd::prelude::*;
use crate::exception::Exception;
use crate::term::{Term, ATOM_FALSE, ATOM_TRUE};

verus! {

/// The other boolean; an error for a term that is no boolean.
pub fn result(boolean: Term) -> (r: Result<Term, Exception>)
    ensures
        r == (if boolean == Term::Atom(ATOM_TRUE) {
            Ok::<Term, Exception>(Term::Atom(ATOM_FALSE))
        } else if boolean == Term::Atom(ATOM_FALSE) {
            Ok(Term::Atom(ATOM_TRUE))
        } else {
            Err(Exception::Badarg)
        }),
{
    match boolean.to_bool() {
        Some(value) => Ok(Term::from_bool(!value)),
        None => Err(Exception::Badarg),
    }
}

} // verus!
