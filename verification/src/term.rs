//! The runtime's universal value: a fixed-width term.
//!
//! A term is either an immediate, which carries its whole value, or a pointer
//! to a cell of the heap that owns it. Pointers are indices into that heap's
//! arena, never addresses, so a term can be copied freely and a heap can be
//! moved or dropped without leaving anything dangling.

use vstd::prelude::*;

verus! {

/// Smallest integer that is held as an immediate.
pub const MIN_SMALL_INTEGER: i64 = -576460752303423488;

/// Largest integer that is held as an immediate.
pub const MAX_SMALL_INTEGER: i64 = 576460752303423487;

/// Index of the atom `false` in every atom table.
pub const ATOM_FALSE: usize = 0;

/// Index of the atom `true` in every atom table.
pub const ATOM_TRUE: usize = 1;

/// A term: an immediate, or a pointer to a cell.
#[derive(Clone, Copy, PartialEq, Eq, Structural, Debug)]
pub enum Term {
    /// An integer between `MIN_SMALL_INTEGER` and `MAX_SMALL_INTEGER`.
    SmallInteger(i64),
    /// An atom, by its index in the atom table.
    Atom(usize),
    /// A local reference, by its number.
    Reference(u64),
    /// A local process identifier, by its number.
    Pid(usize),
    /// The empty list.
    Nil,
    /// A non-empty list: the index of its first cons cell.
    List(usize),
    /// Any other composite value: the index of its cell.
    Boxed(usize),
}

/// The closed set of kinds a term can have once its cell is looked at.
#[derive(Clone, Copy, PartialEq, Eq, Structural, Debug)]
pub enum Kind {
    Integer,
    Atom,
    Reference,
    Function,
    Pid,
    Tuple,
    Mapping,
    Nil,
    List,
    Bitstring,
}

impl Term {
    /// True of the terms that carry their whole value.
    pub open spec fn is_immediate(self) -> bool {
        !(self is List) && !(self is Boxed)
    }

    /// True of the terms that carry their whole value.
    pub fn immediate(&self) -> (r: bool)
        ensures
            r == self.is_immediate(),
    {
        match self {
            Term::List(_) => false,
            Term::Boxed(_) => false,
            _ => true,
        }
    }

    /// The term for a boolean: the atom `true` or the atom `false`.
    pub fn from_bool(value: bool) -> (r: Term)
        ensures
            r == (if value { Term::Atom(ATOM_TRUE) } else { Term::Atom(ATOM_FALSE) }),
    {
        if value {
            Term::Atom(ATOM_TRUE)
        } else {
            Term::Atom(ATOM_FALSE)
        }
    }

    /// The boolean that a term stands for, if it is one of the two boolean
    /// atoms.
    pub fn to_bool(&self) -> (r: Option<bool>)
        ensures
            r == (match *self {
                Term::Atom(a) => if a == ATOM_TRUE {
                    Some(true)
                } else if a == ATOM_FALSE {
                    Some(false)
                } else {
                    None
                },
                _ => None,
            }),
    {
        match self {
            Term::Atom(a) => {
                if *a == ATOM_TRUE {
                    Some(true)
                } else if *a == ATOM_FALSE {
                    Some(false)
                } else {
                    None
                }
            },
            _ => None,
        }
    }
}

/// The weight of a word's tag: 2 to the power 64.
pub const TAG_WEIGHT: u128 = 18446744073709551616;

/// What is added to a small integer to make its payload: 2 to the power 63.
pub const INTEGER_BIAS: i128 = 9223372036854775808;

/// The word that stands for a term: its tag in the high half, its payload in
/// the low half.
pub open spec fn encoded(t: Term) -> u128 {
    match t {
        Term::SmallInteger(n) => (n + INTEGER_BIAS) as u128,
        Term::Atom(a) => (TAG_WEIGHT + a) as u128,
        Term::Reference(r) => (2 * TAG_WEIGHT + r) as u128,
        Term::Pid(p) => (3 * TAG_WEIGHT + p) as u128,
        Term::Nil => (4 * TAG_WEIGHT) as u128,
        Term::List(p) => (5 * TAG_WEIGHT + p) as u128,
        Term::Boxed(p) => (6 * TAG_WEIGHT + p) as u128,
    }
}

/// The term that a word stands for, if it stands for one.
pub open spec fn decoded(word: u128) -> Option<Term> {
    let tag = word / TAG_WEIGHT;
    let payload = word % TAG_WEIGHT;
    if tag == 0 {
        Some(Term::SmallInteger((payload - INTEGER_BIAS) as i64))
    } else if tag == 1 && payload <= usize::MAX {
        Some(Term::Atom(payload as usize))
    } else if tag == 2 {
        Some(Term::Reference(payload as u64))
    } else if tag == 3 && payload <= usize::MAX {
        Some(Term::Pid(payload as usize))
    } else if tag == 4 && payload == 0 {
        Some(Term::Nil)
    } else if tag == 5 && payload <= usize::MAX {
        Some(Term::List(payload as usize))
    } else if tag == 6 && payload <= usize::MAX {
        Some(Term::Boxed(payload as usize))
    } else {
        None
    }
}

/// Decoding the word of a term gives the term back, so two terms with the
/// same word are the same term.
pub proof fn lemma_decode_encode(t: Term)
    ensures
        decoded(encoded(t)) == Some(t),
{
}

/// A word that stands for a term is the word of that term.
pub proof fn lemma_encode_decode(word: u128)
    requires
        decoded(word) is Some,
    ensures
        encoded(decoded(word)->Some_0) == word,
{
}

impl Term {
    /// The word that stands for the term.
    pub fn encode(&self) -> (r: u128)
        ensures
            r == encoded(*self),
    {
        match self {
            Term::SmallInteger(n) => (*n as i128 + INTEGER_BIAS) as u128,
            Term::Atom(a) => TAG_WEIGHT + *a as u128,
            Term::Reference(r) => 2 * TAG_WEIGHT + *r as u128,
            Term::Pid(p) => 3 * TAG_WEIGHT + *p as u128,
            Term::Nil => 4 * TAG_WEIGHT,
            Term::List(p) => 5 * TAG_WEIGHT + *p as u128,
            Term::Boxed(p) => 6 * TAG_WEIGHT + *p as u128,
        }
    }

    /// The term that a word stands for; `None` for a word that stands for
    /// none.
    pub fn decode(word: u128) -> (r: Option<Term>)
        ensures
            r == decoded(word),
    {
        let tag: u128 = word / TAG_WEIGHT;
        let payload: u128 = word % TAG_WEIGHT;
        if tag == 0 {
            Some(Term::SmallInteger((payload as i128 - INTEGER_BIAS) as i64))
        } else if tag == 1 && payload <= usize::MAX as u128 {
            Some(Term::Atom(payload as usize))
        } else if tag == 2 {
            Some(Term::Reference(payload as u64))
        } else if tag == 3 && payload <= usize::MAX as u128 {
            Some(Term::Pid(payload as usize))
        } else if tag == 4 && payload == 0 {
            Some(Term::Nil)
        } else if tag == 5 && payload <= usize::MAX as u128 {
            Some(Term::List(payload as usize))
        } else if tag == 6 && payload <= usize::MAX as u128 {
            Some(Term::Boxed(payload as usize))
        } else {
            None
        }
    }
}

} // verus!
