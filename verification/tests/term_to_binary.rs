use lumen_runtime::atom::AtomTable;
use lumen_runtime::erlang::term_to_binary_1::result;
use lumen_runtime::exception::Exception;
use lumen_runtime::heap::{Heap, Object};
use lumen_runtime::term::Term;

fn bytes_of(heap: &Heap, binary: Term) -> Vec<u8> {
    match binary {
        Term::Boxed(p) => match heap.object(p) {
            Object::HeapBinary(bytes) => bytes.clone(),
            Object::ProcBin(shared) => shared.as_ref().clone(),
            _ => panic!("a binary"),
        },
        _ => panic!("a binary"),
    }
}

fn encode(heap: &mut Heap, atoms: &AtomTable, term: Term) -> Vec<u8> {
    let binary = result(heap, atoms, term).unwrap();
    bytes_of(heap, binary)
}

#[test]
fn integers_in_the_external_format() {
    let atoms = AtomTable::new();
    let mut heap = Heap::new(1024);
    assert_eq!(encode(&mut heap, &atoms, Term::SmallInteger(0)), vec![131, 97, 0]);
    assert_eq!(encode(&mut heap, &atoms, Term::SmallInteger(255)), vec![131, 97, 255]);
    assert_eq!(encode(&mut heap, &atoms, Term::SmallInteger(256)), vec![131, 98, 0, 0, 1, 0]);
    assert_eq!(
        encode(&mut heap, &atoms, Term::SmallInteger(-1)),
        vec![131, 98, 255, 255, 255, 255]
    );
    assert_eq!(
        encode(&mut heap, &atoms, Term::SmallInteger(-2147483648)),
        vec![131, 98, 128, 0, 0, 0]
    );
    assert_eq!(
        encode(&mut heap, &atoms, Term::SmallInteger(2147483648)),
        vec![131, 110, 4, 0, 0, 0, 0, 128]
    );
    assert_eq!(
        encode(&mut heap, &atoms, Term::SmallInteger(-4294967296)),
        vec![131, 110, 5, 1, 0, 0, 0, 0, 1]
    );
    let big = heap.integer(1i128 << 64).unwrap();
    assert_eq!(
        encode(&mut heap, &atoms, big),
        vec![131, 110, 9, 0, 0, 0, 0, 0, 0, 0, 0, 0, 1]
    );
    let negative = heap.integer(-((1i128 << 72) + 0x0102)).unwrap();
    assert_eq!(
        encode(&mut heap, &atoms, negative),
        vec![131, 110, 10, 1, 2, 1, 0, 0, 0, 0, 0, 0, 0, 1]
    );
}

#[test]
fn terms_in_the_external_format() {
    let mut atoms = AtomTable::new();
    let a = atoms.str_to_term("a");
    let mut heap = Heap::new(4096);
    heap.adopt(&atoms);
    assert_eq!(encode(&mut heap, &atoms, Term::Atom(2)), vec![131, 119, 2, 111, 107]);
    assert_eq!(encode(&mut heap, &atoms, Term::Nil), vec![131, 106]);
    let list = heap.list_from_slice(&[Term::SmallInteger(1), Term::SmallInteger(2)]).unwrap();
    assert_eq!(
        encode(&mut heap, &atoms, list),
        vec![131, 108, 0, 0, 0, 2, 97, 1, 97, 2, 106]
    );
    let improper = heap.cons(Term::SmallInteger(1), Term::SmallInteger(2)).unwrap();
    assert_eq!(
        encode(&mut heap, &atoms, improper),
        vec![131, 108, 0, 0, 0, 1, 97, 1, 97, 2]
    );
    let tuple = heap.tuple_from_slice(&[Term::SmallInteger(1), list]).unwrap();
    assert_eq!(
        encode(&mut heap, &atoms, tuple),
        vec![131, 104, 2, 97, 1, 108, 0, 0, 0, 2, 97, 1, 97, 2, 106]
    );
    let binary = heap.binary_from_bytes(b"ab").unwrap();
    assert_eq!(encode(&mut heap, &atoms, binary), vec![131, 109, 0, 0, 0, 2, 97, 98]);
    let bit_of = heap.binary_from_bytes(&[0xff]).unwrap();
    let bit = heap.subbinary_from_original(bit_of, 0, 0, 0, 1).unwrap();
    assert_eq!(encode(&mut heap, &atoms, bit), vec![131, 77, 0, 0, 0, 1, 1, 128]);
    let window = heap.subbinary_from_original(binary, 1, 0, 1, 0).unwrap();
    assert_eq!(encode(&mut heap, &atoms, window), vec![131, 109, 0, 0, 0, 1, 98]);
    // the keys of a map come in their order, whatever the order of the puts
    let map = heap
        .map_from_entries(&atoms, &[(a, Term::SmallInteger(1)), (Term::SmallInteger(7), a)])
        .unwrap();
    assert_eq!(
        encode(&mut heap, &atoms, map),
        vec![131, 116, 0, 0, 0, 2, 97, 7, 119, 1, 97, 119, 1, 97, 97, 1]
    );
    let node = b"nonode@nohost";
    let mut pid = vec![131, 88, 119, 13];
    pid.extend_from_slice(node);
    pid.extend_from_slice(&[0, 0, 0, 5, 0, 0, 0, 0, 0, 0, 0, 0]);
    assert_eq!(encode(&mut heap, &atoms, Term::Pid(5)), pid);
    let mut reference = vec![131, 90, 0, 2, 119, 13];
    reference.extend_from_slice(node);
    reference.extend_from_slice(&[0, 0, 0, 0, 0, 0, 0, 1, 0, 0, 0, 2]);
    assert_eq!(encode(&mut heap, &atoms, Term::Reference((1 << 32) + 2)), reference);
    // a tuple of more than 255 elements
    let long = heap.tuple_from_slice(&[Term::Nil; 256]).unwrap();
    let encoded = encode(&mut heap, &atoms, long);
    assert_eq!(&encoded[..6], &[131, 105, 0, 0, 1, 0]);
    assert_eq!(encoded.len(), 6 + 256);
    // a function cannot be written, nor a term that holds one
    let function = heap.closure(2, 0, 0, &[]).unwrap();
    assert_eq!(result(&mut heap, &atoms, function), Err(Exception::Badarg));
    let holder = heap.tuple_from_slice(&[function]).unwrap();
    assert_eq!(result(&mut heap, &atoms, holder), Err(Exception::Badarg));
    let mut full = Heap::new(1);
    assert_eq!(result(&mut full, &atoms, Term::Nil), Err(Exception::Alloc));
}
