use lumen_runtime::atom::AtomTable;
use lumen_runtime::erlang::is_greater_than_or_equal_2::{is_greater_than_or_equal, result};
use lumen_runtime::heap::Heap;
use lumen_runtime::term::Term;

fn with_atom_left(right: &str, expected: bool) {
    let mut atoms = AtomTable::new();
    let left = atoms.str_to_term("left");
    let right = atoms.str_to_term(right);
    let mut heap = Heap::new(64);
    heap.adopt(&atoms);

    assert_eq!(is_greater_than_or_equal(&heap, &atoms, left, right), expected);
    assert_eq!(result(&heap, &atoms, left, right), Term::from_bool(expected));
}

#[test]
fn with_greater_atom_returns_true() {
    with_atom_left("keft", true);
}

#[test]
fn with_same_atom_value_returns_true() {
    with_atom_left("left", true);
}

#[test]
fn with_greater_atom_returns_false() {
    with_atom_left("meft", false);
}

#[test]
fn with_number_returns_true() {
    let mut atoms = AtomTable::new();
    let left = atoms.str_to_term("left");
    let mut heap = Heap::new(64);
    heap.adopt(&atoms);
    let big = heap.integer(1i128 << 100).unwrap();
    let negative = heap.integer(-(1i128 << 100)).unwrap();
    for right in [Term::SmallInteger(0), Term::SmallInteger(i64::MIN / 64), big, negative] {
        assert_eq!(result(&heap, &atoms, left, right), Term::from_bool(true));
    }
}

#[test]
fn without_number_or_atom_returns_false() {
    let mut atoms = AtomTable::new();
    let left = atoms.str_to_term("left");
    let mut heap = Heap::new(64);
    heap.adopt(&atoms);
    let tuple = heap.tuple_from_slice(&[]).unwrap();
    let map = heap.map_from_entries(&atoms, &[]).unwrap();
    let list = heap.cons(left, Term::Nil).unwrap();
    let binary = heap.binary_from_bytes(&[]).unwrap();
    for right in [Term::Reference(0), Term::Pid(0), tuple, map, Term::Nil, list, binary] {
        assert_eq!(result(&heap, &atoms, left, right), Term::from_bool(false));
    }
}

#[test]
fn kinds_are_ordered() {
    let mut atoms = AtomTable::new();
    let atom = atoms.str_to_term("atom");
    let mut heap = Heap::new(64);
    heap.adopt(&atoms);
    let tuple = heap.tuple_from_slice(&[]).unwrap();
    let map = heap.map_from_entries(&atoms, &[]).unwrap();
    let list = heap.cons(atom, Term::Nil).unwrap();
    let binary = heap.binary_from_bytes(&[]).unwrap();
    let ascending =
        [Term::SmallInteger(9), atom, Term::Reference(0), Term::Pid(0), tuple, map, Term::Nil, list, binary];
    for (i, a) in ascending.iter().enumerate() {
        for (j, b) in ascending.iter().enumerate() {
            assert_eq!(is_greater_than_or_equal(&heap, &atoms, *a, *b), i >= j);
        }
    }
}
