//! The table of atoms: every atom's name, found by the atom's index.

use vstd::prelude::*;
use vstd::string::StringSliceAdditionalSpecFns;

verus! {

/// Index of the atom `ok`.
pub const ATOM_OK: usize = 2;

/// Index of the atom `error`.
pub const ATOM_ERROR: usize = 3;

/// Index of the atom `normal`.
pub const ATOM_NORMAL: usize = 4;

/// Index of the atom `timeout`.
pub const ATOM_TIMEOUT: usize = 5;

/// Index of the atom `undefined`.
pub const ATOM_UNDEFINED: usize = 6;

/// Index of the atom `DOWN`.
pub const ATOM_DOWN: usize = 7;

/// Index of the atom `process`.
pub const ATOM_PROCESS: usize = 8;

/// Index of the atom `out_of_memory`.
pub const ATOM_OUT_OF_MEMORY: usize = 9;

/// Index of the atom `badarg`.
pub const ATOM_BADARG: usize = 10;

/// Index of the atom `badarith`.
pub const ATOM_BADARITH: usize = 11;

/// Index of the atom `badmap`.
pub const ATOM_BADMAP: usize = 12;

/// Index of the atom `cancel_timer`.
pub const ATOM_CANCEL_TIMER: usize = 13;

/// Number of atoms that every table starts with.
pub const PREDEFINED_ATOMS: usize = 14;

/// The names of the atoms, in the order in which they were first seen. An
/// atom is the index of its name, so no name occurs twice.
pub struct AtomTable {
    names: Vec<Vec<u8>>,
}

/// The names that every table starts with, in the order of their indices.
pub open spec fn predefined_names() -> Seq<Seq<u8>> {
    seq![
        seq![102u8, 97u8, 108u8, 115u8, 101u8],
        seq![116u8, 114u8, 117u8, 101u8],
        seq![111u8, 107u8],
        seq![101u8, 114u8, 114u8, 111u8, 114u8],
        seq![110u8, 111u8, 114u8, 109u8, 97u8, 108u8],
        seq![116u8, 105u8, 109u8, 101u8, 111u8, 117u8, 116u8],
        seq![117u8, 110u8, 100u8, 101u8, 102u8, 105u8, 110u8, 101u8, 100u8],
        seq![68u8, 79u8, 87u8, 78u8],
        seq![112u8, 114u8, 111u8, 99u8, 101u8, 115u8, 115u8],
        seq![
            111u8,
            117u8,
            116u8,
            95u8,
            111u8,
            102u8,
            95u8,
            109u8,
            101u8,
            109u8,
            111u8,
            114u8,
            121u8,
        ],
        seq![98u8, 97u8, 100u8, 97u8, 114u8, 103u8],
        seq![98u8, 97u8, 100u8, 97u8, 114u8, 105u8, 116u8, 104u8],
        seq![98u8, 97u8, 100u8, 109u8, 97u8, 112u8],
        seq![
            99u8,
            97u8,
            110u8,
            99u8,
            101u8,
            108u8,
            95u8,
            116u8,
            105u8,
            109u8,
            101u8,
            114u8,
        ],
    ]
}

/// No name occurs twice.
pub open spec fn distinct_names(names: Seq<Seq<u8>>) -> bool {
    forall|i: int, j: int| 0 <= i < j < names.len() ==> names[i] != names[j]
}

/// The predefined names are distinct.
pub proof fn lemma_predefined_distinct()
    ensures
        distinct_names(predefined_names()),
{
    let p = predefined_names();
    assert forall|i: int, j: int| 0 <= i < j < p.len() implies p[i] != p[j] by {
        assert(p[i].len() != p[j].len() || p[i][0] != p[j][0] || p[i][3] != p[j][3]);
    }
}

/// True if `earlier` is what `later` began as.
pub open spec fn names_extend(later: Seq<Seq<u8>>, earlier: Seq<Seq<u8>>) -> bool {
    &&& earlier.len() <= later.len()
    &&& forall|i: int| 0 <= i < earlier.len() ==> later[i] == earlier[i]
}

/// The first index at or after `from` whose name is `name`, or the length of
/// the table if there is none.
pub open spec fn position_of(names: Seq<Seq<u8>>, name: Seq<u8>, from: int) -> int
    decreases names.len() - from,
{
    if from < 0 || from >= names.len() {
        names.len() as int
    } else if names[from] == name {
        from
    } else {
        position_of(names, name, from + 1)
    }
}

/// The position found is the first at which the name stands.
pub proof fn lemma_position_of(names: Seq<Seq<u8>>, name: Seq<u8>, from: int)
    requires
        0 <= from <= names.len(),
    ensures
        from <= position_of(names, name, from) <= names.len(),
        position_of(names, name, from) < names.len() ==> names[position_of(names, name, from)]
            == name,
        forall|i: int| from <= i < position_of(names, name, from) ==> names[i] != name,
    decreases names.len() - from,
{
    if from < names.len() && names[from] != name {
        lemma_position_of(names, name, from + 1);
    }
}

/// True if the two byte strings hold the same bytes.
pub fn bytes_equal(a: &[u8], b: &[u8]) -> (r: bool)
    ensures
        r == (a@ == b@),
{
    if a.len() != b.len() {
        return false;
    }
    let mut i: usize = 0;
    while i < a.len()
        invariant
            a.len() == b.len(),
            0 <= i <= a.len(),
            forall|k: int| 0 <= k < i ==> a@[k] == b@[k],
        decreases a.len() - i,
    {
        if a[i] != b[i] {
            return false;
        }
        i += 1;
    }
    assert(a@ =~= b@);
    true
}

/// A copy of a byte string.
pub fn bytes_to_vec(a: &[u8]) -> (r: Vec<u8>)
    ensures
        r@ == a@,
{
    let mut out: Vec<u8> = Vec::new();
    let mut i: usize = 0;
    while i < a.len()
        invariant
            0 <= i <= a.len(),
            out@ == a@.subrange(0, i as int),
        decreases a.len() - i,
    {
        out.push(a[i]);
        assert(out@ =~= a@.subrange(0, i + 1));
        i += 1;
    }
    assert(a@.subrange(0, a.len() as int) =~= a@);
    out
}

impl View for AtomTable {
    type V = Seq<Seq<u8>>;

    closed spec fn view(&self) -> Seq<Seq<u8>> {
        Seq::new(self.names@.len(), |i: int| self.names@[i]@)
    }
}

impl AtomTable {
    /// The table holds the predefined atoms at their indices, and no name
    /// twice.
    pub open spec fn wf(&self) -> bool {
        &&& distinct_names(self@)
        &&& names_extend(self@, predefined_names())
    }

    /// A table with the predefined atoms.
    pub fn new() -> (r: AtomTable)
        ensures
            r.wf(),
            r@ == predefined_names(),
    {
        let mut names: Vec<Vec<u8>> = Vec::new();
        names.push(vec![102u8, 97u8, 108u8, 115u8, 101u8]);
        names.push(vec![116u8, 114u8, 117u8, 101u8]);
        names.push(vec![111u8, 107u8]);
        names.push(vec![101u8, 114u8, 114u8, 111u8, 114u8]);
        names.push(vec![110u8, 111u8, 114u8, 109u8, 97u8, 108u8]);
        names.push(vec![116u8, 105u8, 109u8, 101u8, 111u8, 117u8, 116u8]);
        names.push(vec![117u8, 110u8, 100u8, 101u8, 102u8, 105u8, 110u8, 101u8, 100u8]);
        names.push(vec![68u8, 79u8, 87u8, 78u8]);
        names.push(vec![112u8, 114u8, 111u8, 99u8, 101u8, 115u8, 115u8]);
        names.push(
            vec![
                111u8,
                117u8,
                116u8,
                95u8,
                111u8,
                102u8,
                95u8,
                109u8,
                101u8,
                109u8,
                111u8,
                114u8,
                121u8,
            ],
        );
        names.push(vec![98u8, 97u8, 100u8, 97u8, 114u8, 103u8]);
        names.push(vec![98u8, 97u8, 100u8, 97u8, 114u8, 105u8, 116u8, 104u8]);
        names.push(vec![98u8, 97u8, 100u8, 109u8, 97u8, 112u8]);
        names.push(
            vec![
                99u8,
                97u8,
                110u8,
                99u8,
                101u8,
                108u8,
                95u8,
                116u8,
                105u8,
                109u8,
                101u8,
                114u8,
            ],
        );
        let r = AtomTable { names };
        proof {
            let p = predefined_names();
            assert(r@.len() == 14);
            assert forall|i: int| 0 <= i < 14 implies r@[i] =~= p[i] by {}
            assert(r@ =~= p);
            lemma_predefined_distinct();
        }
        r
    }

    /// Number of atoms in the table.
    pub fn len(&self) -> (r: usize)
        ensures
            r == self@.len(),
    {
        self.names.len()
    }

    /// The index of the atom with this name, if the table has it.
    pub fn lookup(&self, name: &[u8]) -> (r: Option<usize>)
        ensures
            r == (if position_of(self@, name@, 0) < self@.len() {
                Some(position_of(self@, name@, 0) as usize)
            } else {
                None
            }),
    {
        let mut i: usize = 0;
        while i < self.names.len()
            invariant
                0 <= i <= self.names.len(),
                position_of(self@, name@, 0) == position_of(self@, name@, i as int),
            decreases self.names.len() - i,
        {
            if bytes_equal(self.names[i].as_slice(), name) {
                return Some(i);
            }
            i += 1;
        }
        None
    }

    /// The index of the atom with this name. A name that the table does not
    /// have yet is added at its end; every other atom keeps its index.
    pub fn intern(&mut self, name: &[u8]) -> (r: usize)
        requires
            old(self).wf(),
        ensures
            final(self).wf(),
            r == position_of(old(self)@, name@, 0),
            r < old(self)@.len() ==> final(self)@ == old(self)@,
            r == old(self)@.len() ==> final(self)@ == old(self)@.push(name@),
            r < final(self)@.len(),
            final(self)@[r as int] == name@,
            names_extend(final(self)@, old(self)@),
    {
        let _count: usize = self.names.len();
        let found = self.lookup(name);
        match found {
            Some(i) => {
                proof {
                    lemma_position_of(self@, name@, 0);
                    assert(self@.len() == self.names@.len());
                }
                i
            },
            None => {
                let i: usize = self.names.len();
                proof {
                    lemma_position_of(self@, name@, 0);
                }
                self.names.push(bytes_to_vec(name));
                proof {
                    assert(self@ =~= old(self)@.push(name@));
                }
                i
            },
        }
    }

    /// The atom with this name, as a term.
    pub fn str_to_term(&mut self, name: &str) -> (r: crate::term::Term)
        requires
            old(self).wf(),
        ensures
            final(self).wf(),
            r == crate::term::Term::Atom(position_of(old(self)@, name.spec_bytes(), 0) as usize),
            names_extend(final(self)@, old(self)@),
            r->Atom_0 < final(self)@.len(),
            final(self)@[r->Atom_0 as int] == name.spec_bytes(),
    {
        let index: usize = self.intern(name.as_bytes());
        crate::term::Term::Atom(index)
    }

    /// The name of an atom.
    pub fn name(&self, index: usize) -> (r: &Vec<u8>)
        requires
            index < self@.len(),
        ensures
            r@ == self@[index as int],
    {
        &self.names[index]
    }
}

} // verus!
