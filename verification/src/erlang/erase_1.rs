//! `erase/1`: takes a key out of the process dictionary.

use vstd::prelude::*;
use crate::atom::{names_extend, AtomTable, ATOM_UNDEFINED};
use crate::process::Process;
use crate::term::Term;

verus! {

/// Takes `key` out of the dictionary of the process. Returns what was under
/// the key, or the atom `undefined` if nothing was.
pub fn result(process: &mut Process, atoms: &AtomTable, key: Term) -> (r: Term)
    requires
        old(process).wf(),
        old(process).heap.contains(key),
        names_extend(atoms@, old(process).heap.names@),
    ensures
        final(process).wf(),
        *final(process) == (Process { dictionary: final(process).dictionary, ..*old(process) }),
        final(process).dictionary_mapping() == old(process).dictionary_mapping().remove(
            old(process).heap.value(key),
        ),
        final(process).heap.contains(r),
        old(process).dictionary_mapping().contains_key(old(process).heap.value(key))
            ==> final(process).heap.value(r) == old(process).dictionary_mapping()[old(process).heap.value(key)],
        !old(process).dictionary_mapping().contains_key(old(process).heap.value(key)) ==> r
            == Term::Atom(ATOM_UNDEFINED),
{
    process.erase_value_from_key(atoms, key)
}

} // verus!
