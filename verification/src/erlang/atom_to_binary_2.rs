//! `atom_to_binary/2`: the name of an atom as a binary.

use vstd::prelude::*;
use crate::atom::{bytes_equal, names_extend, AtomTable};
use crate::exception::Exception;
use crate::heap::Heap;
use crate::term::Term;
use crate::value::Value;

verus! {

/// The name `latin1`.
pub open spec fn latin1() -> Seq<u8> {
    seq![108u8, 97u8, 116u8, 105u8, 110u8, 49u8]
}

/// The name `unicode`.
pub open spec fn unicode() -> Seq<u8> {
    seq![117u8, 110u8, 105u8, 99u8, 111u8, 100u8, 101u8]
}

/// The name `utf8`.
pub open spec fn utf8() -> Seq<u8> {
    seq![117u8, 116u8, 102u8, 56u8]
}

/// True if the value is an atom that names an encoding: `latin1`, `unicode`
/// or `utf8`.
pub open spec fn is_encoding(v: Value) -> bool {
    v is Atom && (v->Atom_0 == latin1() || v->Atom_0 == unicode() || v->Atom_0 == utf8())
}

/// The binary of the name of `atom`. The encoding has to be one of the
/// atoms `latin1`, `unicode` and `utf8`.
pub fn result(heap: &mut Heap, atoms: &AtomTable, atom: Term, encoding: Term) -> (r: Result<
    Term,
    Exception,
>)
    requires
        old(heap).wf(),
        old(heap).contains(atom),
        old(heap).contains(encoding),
        names_extend(atoms@, old(heap).names@),
    ensures
        final(heap).wf(),
        final(heap).extends(old(heap)),
        !(atom is Atom && is_encoding(old(heap).value(encoding))) ==> r == Err::<Term, Exception>(
            Exception::Badarg,
        ),
        atom is Atom && is_encoding(old(heap).value(encoding)) ==> {
            let name = old(heap).value(atom)->Atom_0;
            &&& r is Ok <==> crate::heap::binary_words(name.len()) <= old(heap).spare()
            &&& r is Ok ==> final(heap).contains(r->Ok_0) && final(heap).value(r->Ok_0)
                == Value::Bitstring(name, 0, 0)
            &&& r is Ok ==> final(heap).used == old(heap).used + crate::heap::binary_words(name.len())
            &&& r is Err ==> r->Err_0 == Exception::Alloc
        },
        r is Err ==> *final(heap) == *old(heap),
{
    proof {
        heap.lemma_shape(encoding);
    }
    let index: usize = match atom {
        Term::Atom(index) => index,
        _ => {
            return Err(Exception::Badarg);
        },
    };
    let known: bool = match encoding {
        Term::Atom(e) => {
            let name = atoms.name(e);
            let l: [u8; 6] = [108u8, 97u8, 116u8, 105u8, 110u8, 49u8];
            let u: [u8; 7] = [117u8, 110u8, 105u8, 99u8, 111u8, 100u8, 101u8];
            let f: [u8; 4] = [117u8, 116u8, 102u8, 56u8];
            proof {
                assert(l@ =~= latin1());
                assert(u@ =~= unicode());
                assert(f@ =~= utf8());
            }
            bytes_equal(name.as_slice(), l.as_slice()) || bytes_equal(name.as_slice(), u.as_slice())
                || bytes_equal(name.as_slice(), f.as_slice())
        },
        _ => false,
    };
    if !known {
        return Err(Exception::Badarg);
    }
    match heap.binary_from_bytes(atoms.name(index).as_slice()) {
        Ok(term) => Ok(term),
        Err(_) => Err(Exception::Alloc),
    }
}

} // verus!
