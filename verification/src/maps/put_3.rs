//! `maps:put/3`: a map with a value under a key.

use vstd::prelude::*;
use crate::atom::{names_extend, AtomTable};
use crate::exception::Exception;
use crate::heap::Heap;
use crate::map::as_map;
use crate::term::Term;

verus! {

/// The map with `value` under `key` and every other key as in `map`, which
/// stays as it is.
pub fn result(heap: &mut Heap, atoms: &AtomTable, key: Term, value: Term, map: Term) -> (r: Result<
    Term,
    Exception,
>)
    requires
        old(heap).wf(),
        old(heap).contains(key),
        old(heap).contains(value),
        old(heap).contains(map),
        names_extend(atoms@, old(heap).names@),
    ensures
        final(heap).wf(),
        final(heap).extends(old(heap)),
        !(old(heap).value(map) is Mapping) ==> r == Err::<Term, Exception>(Exception::Badmap),
        old(heap).value(map) is Mapping ==> {
            let before = as_map(old(heap).value(map)->Mapping_0, old(heap).value(map)->Mapping_1);
            let size = if before.contains_key(old(heap).value(key)) {
                old(heap).value(map)->Mapping_0.len()
            } else {
                old(heap).value(map)->Mapping_0.len() + 1
            };
            &&& r is Ok <==> 1 + 2 * size <= old(heap).spare()
            &&& r is Ok ==> final(heap).contains(r->Ok_0) && final(heap).value(r->Ok_0) is Mapping
                && as_map(final(heap).value(r->Ok_0)->Mapping_0, final(heap).value(r->Ok_0)->Mapping_1)
                == before.insert(old(heap).value(key), old(heap).value(value))
            &&& r is Ok ==> final(heap).used == old(heap).used + 1 + 2 * size
            &&& r is Err ==> r->Err_0 == Exception::Alloc
        },
        r is Err ==> *final(heap) == *old(heap),
{
    let updated = match heap.map_of(map) {
        Some(boxed_map) => boxed_map.put(heap, atoms, key, value),
        None => {
            return Err(Exception::Badmap);
        },
    };
    match heap.map_to_term(updated) {
        Ok(term) => Ok(term),
        Err(_) => Err(Exception::Alloc),
    }
}

} // verus!
