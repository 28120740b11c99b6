use lumen_runtime::atom::AtomTable;
use lumen_runtime::construct::proper_list;
use lumen_runtime::erlang::{
    append_element_2, are_not_equal_after_conversion_2, atom_to_binary_2, bitstring_to_list_1,
    byte_size_1, concatenate_2,
};
use lumen_runtime::exception::Exception;
use lumen_runtime::heap::{Heap, Object};
use lumen_runtime::term::Term;
use lumen_runtime::value::Order;

fn with_process<F: FnOnce(&mut AtomTable, &mut Heap)>(f: F) {
    let mut atoms = AtomTable::new();
    let mut heap = Heap::new(1024);
    f(&mut atoms, &mut heap);
}

fn integers(values: &[i64]) -> Vec<Term> {
    values.iter().map(|n| Term::SmallInteger(*n)).collect()
}

#[test]
fn without_atom_errors_badarg() {
    with_process(|atoms, heap| {
        let encoding = atoms.str_to_term("utf8");
        heap.adopt(atoms);
        let tuple = heap.tuple_from_slice(&[]).unwrap();
        for atom in [Term::SmallInteger(0), Term::Nil, Term::Pid(0), tuple] {
            assert_eq!(atom_to_binary_2::result(heap, atoms, atom, encoding), Err(Exception::Badarg));
        }
    });
}

#[test]
fn with_atom_without_atom_encoding_errors_badarg() {
    with_process(|atoms, heap| {
        let atom = atoms.str_to_term("atom");
        heap.adopt(atoms);
        let tuple = heap.tuple_from_slice(&[]).unwrap();
        for encoding in [Term::SmallInteger(0), Term::Nil, Term::Pid(0), tuple] {
            assert_eq!(atom_to_binary_2::result(heap, atoms, atom, encoding), Err(Exception::Badarg));
        }
    });
}

#[test]
fn with_atom_with_atom_without_name_encoding_errors_badarg() {
    with_process(|atoms, heap| {
        let atom = atoms.str_to_term("atom");
        let not_encodings = [
            atoms.str_to_term("utf16"),
            atoms.str_to_term("latin"),
            atoms.str_to_term("atom"),
            Term::from_bool(true),
        ];
        heap.adopt(atoms);
        for encoding in not_encodings {
            assert_eq!(atom_to_binary_2::result(heap, atoms, atom, encoding), Err(Exception::Badarg));
        }
    });
}

#[test]
fn with_atom_with_encoding_atom_returns_name_in_binary() {
    with_process(|atoms, heap| {
        let atom = atoms.str_to_term("atom");
        let encodings =
            [atoms.str_to_term("latin1"), atoms.str_to_term("unicode"), atoms.str_to_term("utf8")];
        heap.adopt(atoms);
        let expected = heap.binary_from_bytes(b"atom").unwrap();
        for encoding in encodings {
            let binary = atom_to_binary_2::result(heap, atoms, atom, encoding).unwrap();
            assert_eq!(heap.compare(atoms, binary, expected), Order::Equal);
        }
    });
}

#[test]
fn bitstring_to_list_of_a_binary_is_its_bytes() {
    with_process(|atoms, heap| {
        let binary = heap.binary_from_bytes(&[1, 2, 255]).unwrap();
        let list = bitstring_to_list_1::result(heap, binary).unwrap();
        assert_eq!(heap.list_to_vec(list), Some(integers(&[1, 2, 255])));
        let empty = heap.binary_from_bytes(&[]).unwrap();
        assert_eq!(bitstring_to_list_1::result(heap, empty), Ok(Term::Nil));
        assert_eq!(bitstring_to_list_1::result(heap, Term::Nil), Err(Exception::TypeError));
        assert_eq!(byte_size_1::result(heap, binary), Ok(Term::SmallInteger(3)));
        assert_eq!(byte_size_1::result(heap, Term::SmallInteger(3)), Err(Exception::TypeError));
        assert_eq!(atoms.len(), lumen_runtime::atom::PREDEFINED_ATOMS);
    });
}

#[test]
fn bitstring_to_list_of_a_window_ends_in_the_bits_that_are_left() {
    with_process(|atoms, heap| {
        // 0000_0001 0010_0011 0100_0101 0110_0111
        let original = heap.binary_from_bytes(&[0x01, 0x23, 0x45, 0x67]).unwrap();
        // from bit 4 on: two whole bytes 0x12 0x34, then the three bits 010
        let window = heap.subbinary_from_original(original, 0, 4, 2, 3).unwrap();
        assert_eq!(byte_size_1::result(heap, window), Ok(Term::SmallInteger(3)));
        let list = bitstring_to_list_1::result(heap, window).unwrap();
        let items = heap.list_to_vec(list).unwrap();
        assert_eq!(items.len(), 3);
        assert_eq!(items[0], Term::SmallInteger(0x12));
        assert_eq!(items[1], Term::SmallInteger(0x34));
        match items[2] {
            Term::Boxed(p) => match heap.object(p) {
                Object::SubBinary(rest) => {
                    assert_eq!(rest.original, original);
                    assert_eq!(rest.byte_offset, 2);
                    assert_eq!(rest.bit_offset, 4);
                    assert_eq!(rest.full_byte_len, 0);
                    assert_eq!(rest.partial_byte_bit_len, 3);
                }
                _ => panic!("the rest is a window"),
            },
            _ => panic!("the rest is boxed"),
        }
        // the bits that are left are 010: the same as three bits of 0100_0000
        let same = heap.binary_from_bytes(&[0x40]).unwrap();
        let same_bits = heap.subbinary_from_original(same, 0, 0, 0, 3).unwrap();
        assert_eq!(heap.compare(atoms, items[2], same_bits), Order::Equal);
        let other = heap.binary_from_bytes(&[0x60]).unwrap();
        let other_bits = heap.subbinary_from_original(other, 0, 0, 0, 3).unwrap();
        assert_eq!(heap.compare(atoms, items[2], other_bits), Order::Less);
        // a window on whole bytes is equal to the binary of those bytes
        let aligned = heap.subbinary_from_original(original, 1, 0, 2, 0).unwrap();
        let bytes = heap.binary_from_bytes(&[0x23, 0x45]).unwrap();
        assert_eq!(heap.compare(atoms, aligned, bytes), Order::Equal);
        assert_eq!(
            are_not_equal_after_conversion_2::result(heap, atoms, aligned, bytes),
            Term::from_bool(false)
        );
        assert!(!heap.is_window_within(original, 3, 4, 0, 5));
        assert!(heap.is_window_within(original, 3, 4, 0, 4));
        assert!(!heap.is_window_within(Term::Nil, 0, 0, 0, 0));
        // a heap without room for the list
        let mut full = Heap::new(7);
        let small = full.binary_from_bytes(&[1, 2, 3]).unwrap();
        assert_eq!(bitstring_to_list_1::result(&mut full, small), Err(Exception::Alloc));
        assert_eq!(full.used(), 2);
    });
}

#[test]
fn concatenate_puts_a_term_at_the_end_of_a_list() {
    with_process(|atoms, heap| {
        let left = heap.list_from_slice(&integers(&[1, 2])).unwrap();
        let right = heap.list_from_slice(&integers(&[3])).unwrap();
        let joined = concatenate_2::result(heap, left, right).unwrap();
        assert_eq!(heap.list_to_vec(joined), Some(integers(&[1, 2, 3])));
        assert_eq!(concatenate_2::result(heap, Term::Nil, right), Ok(right));
        // any term may be the new end
        let improper = concatenate_2::result(heap, left, Term::SmallInteger(9)).unwrap();
        assert_eq!(heap.list_to_vec(improper), None);
        assert_eq!(concatenate_2::result(heap, improper, right), Err(Exception::ImproperList));
        assert_eq!(concatenate_2::result(heap, Term::SmallInteger(1), right), Err(Exception::TypeError));
        let expected = heap.list_from_slice(&integers(&[1, 2, 3])).unwrap();
        assert_eq!(heap.compare(atoms, joined, expected), Order::Equal);
        assert_eq!(
            are_not_equal_after_conversion_2::result(heap, atoms, joined, left),
            Term::from_bool(true)
        );
        // a shorter list is less than the list that it begins
        assert_eq!(heap.compare(atoms, left, joined), Order::Less);
        let _ = proper_list;
    });
}

#[test]
fn append_element_makes_a_longer_tuple() {
    with_process(|atoms, heap| {
        let tuple = heap.tuple_from_slice(&integers(&[1, 2])).unwrap();
        let longer = append_element_2::result(heap, tuple, Term::Nil).unwrap();
        assert_eq!(heap.tuple_elements(longer).unwrap(), &vec![Term::SmallInteger(1), Term::SmallInteger(2), Term::Nil]);
        assert_eq!(heap.tuple_elements(tuple).unwrap().len(), 2);
        assert_eq!(append_element_2::result(heap, Term::Nil, Term::Nil), Err(Exception::Badarg));
        // a shorter tuple is less, whatever it holds
        let large = heap.tuple_from_slice(&integers(&[9, 9])).unwrap();
        assert_eq!(heap.compare(atoms, large, longer), Order::Less);
        assert_eq!(heap.compare(atoms, tuple, large), Order::Less);
    });
}
