use lumen_runtime::atom::AtomTable;
use lumen_runtime::heap::{Alloc, Heap, Object, SHARED_BINARY_THRESHOLD};
use lumen_runtime::message::Message;
use lumen_runtime::term::{Kind, Term};
use lumen_runtime::value::Order;
use std::sync::Arc;

#[test]
fn allocation_is_all_or_nothing() {
    let mut heap = Heap::new(5);
    let pair = heap.cons(Term::SmallInteger(1), Term::Nil).unwrap();
    assert_eq!(pair, Term::List(0));
    assert_eq!(heap.used(), 2);
    assert_eq!(heap.available(), 3);
    // a tuple of three takes four words: it does not fit, and nothing changes
    let items = [Term::SmallInteger(1), Term::SmallInteger(2), Term::SmallInteger(3)];
    assert_eq!(heap.tuple_from_slice(&items), Err(Alloc));
    assert_eq!(heap.used(), 2);
    assert_eq!(heap.len(), 1);
    // a tuple of two takes three words: it fits exactly
    assert_eq!(heap.tuple_from_slice(&items[..2]), Ok(Term::Boxed(1)));
    assert_eq!(heap.available(), 0);
    assert_eq!(heap.cons(Term::Nil, Term::Nil), Err(Alloc));
}

#[test]
fn collection_keeps_what_the_roots_reach_and_nothing_else() {
    let atoms = AtomTable::new();
    let mut heap = Heap::new(100);
    let bytes = heap.binary_from_bytes(b"hello").unwrap();
    let _garbage = heap.tuple_from_slice(&[bytes, bytes, bytes]).unwrap();
    let inner = heap.cons(Term::SmallInteger(2), Term::Nil).unwrap();
    let _more_garbage = heap.binary_from_bytes(&[0u8; 64]).unwrap();
    let list = heap.cons(Term::SmallInteger(1), inner).unwrap();
    let big = heap.integer(1i128 << 80).unwrap();
    let map = heap
        .map_from_entries(&atoms, &[(Term::Atom(2), list), (bytes, big)])
        .unwrap();
    let tuple = heap.tuple_from_slice(&[list, map, bytes]).unwrap();
    let used_before = heap.used();

    // keep a copy to compare with after the collection
    let before = Message::capture(&heap, tuple).unwrap();

    let roots = vec![tuple, Term::SmallInteger(7), inner];
    let moved = heap.collect(&roots);

    assert_eq!(moved.len(), 3);
    assert_eq!(moved[1], Term::SmallInteger(7));
    assert!(heap.used() < used_before);
    // bytes 2, list 2 + 2, big 1 + 2, map 1 + 4, tuple 1 + 3
    assert_eq!(heap.used(), 18);
    assert_eq!(heap.len(), 6);
    assert_eq!(heap.capacity(), 100);

    // the tuple means what it meant
    let mut check = Heap::new(200);
    let old_copy = check.copy_from(&before.heap, before.term).unwrap();
    let new_copy = check.copy_from(&heap, moved[0]).unwrap();
    assert_eq!(check.compare(&atoms, old_copy, new_copy), Order::Equal);

    // sharing is kept: the second root is the tail of the list in the tuple
    match heap.object(match moved[0] {
        Term::Boxed(p) => p,
        _ => panic!("the tuple is boxed"),
    }) {
        Object::Tuple(elements) => match elements[0] {
            Term::List(p) => match heap.object(p) {
                Object::Cons(head, tail) => {
                    assert_eq!(*head, Term::SmallInteger(1));
                    assert_eq!(*tail, moved[2]);
                }
                _ => panic!("a list cell"),
            },
            _ => panic!("a list"),
        },
        _ => panic!("a tuple"),
    }

    // a second collection of the same roots changes nothing in size
    let again = heap.collect(&moved);
    assert_eq!(heap.used(), 18);
    assert_eq!(heap.kind(again[0]), Kind::Tuple);
}

#[test]
fn collection_without_roots_empties_the_heap() {
    let mut heap = Heap::new(16);
    heap.cons(Term::Nil, Term::Nil).unwrap();
    heap.binary_from_bytes(b"x").unwrap();
    let moved = heap.collect(&Vec::new());
    assert!(moved.is_empty());
    assert_eq!(heap.used(), 0);
    assert_eq!(heap.len(), 0);
    assert_eq!(heap.available(), 16);
}

#[test]
fn copy_between_heaps_takes_the_words_of_the_value() {
    let atoms = AtomTable::new();
    let mut source = Heap::new(64);
    let list = source
        .list_from_slice(&[Term::SmallInteger(1), Term::SmallInteger(2)])
        .unwrap();
    let tuple = source.tuple_from_slice(&[list, list]).unwrap();
    // the list is shared in the source: 4 + 3 words
    assert_eq!(source.used(), 7);

    let mut target = Heap::new(11);
    let copy = target.copy_from(&source, tuple).unwrap();
    // the copy holds the list twice: 4 + 4 + 3 words
    assert_eq!(target.used(), 11);
    let mut both = Heap::new(64);
    let a = both.copy_from(&source, tuple).unwrap();
    let b = both.copy_from(&target, copy).unwrap();
    assert_eq!(both.compare(&atoms, a, b), Order::Equal);

    let mut small = Heap::new(10);
    assert_eq!(small.copy_from(&source, tuple), Err(Alloc));

    let message = Message::capture(&source, tuple).unwrap();
    assert_eq!(message.words(), 11);
}

#[test]
fn words_encode_and_decode_terms() {
    let terms = [
        Term::SmallInteger(0),
        Term::SmallInteger(-1),
        Term::SmallInteger(i64::MIN),
        Term::SmallInteger(i64::MAX),
        Term::Atom(0),
        Term::Atom(usize::MAX),
        Term::Reference(u64::MAX),
        Term::Pid(3),
        Term::Nil,
        Term::List(5),
        Term::Boxed(5),
    ];
    for (i, a) in terms.iter().enumerate() {
        assert_eq!(Term::decode(a.encode()), Some(*a));
        for (j, b) in terms.iter().enumerate() {
            assert_eq!(a.encode() == b.encode(), i == j);
        }
    }
    assert_eq!(Term::decode(u128::MAX), None);
    assert_eq!(Term::decode((4u128 << 64) + 1), None);
    assert_eq!(Term::SmallInteger(0).encode(), 1u128 << 63);
    assert_eq!(Term::Boxed(5).encode(), (6u128 << 64) + 5);
}

#[test]
fn atoms_are_interned_once() {
    let mut atoms = AtomTable::new();
    assert_eq!(atoms.lookup(b"false"), Some(0));
    assert_eq!(atoms.lookup(b"true"), Some(1));
    assert_eq!(atoms.lookup(b"out_of_memory"), Some(9));
    assert_eq!(atoms.lookup(b"cancel_timer"), Some(13));
    assert_eq!(atoms.lookup(b"left"), None);
    let left = atoms.intern(b"left");
    assert_eq!(left, lumen_runtime::atom::PREDEFINED_ATOMS);
    assert_eq!(atoms.intern(b"left"), left);
    assert_eq!(atoms.str_to_term("left"), Term::Atom(left));
    assert_eq!(atoms.name(left).as_slice(), b"left");
    assert_eq!(atoms.len(), left + 1);
}

#[test]
fn large_binaries_are_shared_and_counted() {
    let atoms = AtomTable::new();
    let mut heap = Heap::new(100);
    let small = heap.binary_from_bytes(&[7u8; SHARED_BINARY_THRESHOLD]).unwrap();
    assert_eq!(heap.used(), 9);
    let large = heap.binary_from_bytes(&[7u8; SHARED_BINARY_THRESHOLD + 1]).unwrap();
    // a large binary takes three words, however many bytes it holds
    assert_eq!(heap.used(), 12);
    assert_eq!(heap.compare(&atoms, small, large), Order::Less);
    let shared = match heap.object(match large {
        Term::Boxed(p) => p,
        _ => panic!("a binary is boxed"),
    }) {
        Object::ProcBin(shared) => shared.clone(),
        _ => panic!("a large binary is kept outside the heap"),
    };
    assert!(matches!(
        heap.object(match small {
            Term::Boxed(p) => p,
            _ => panic!("a binary is boxed"),
        }),
        Object::HeapBinary(_)
    ));
    assert_eq!(Arc::strong_count(&shared), 2);

    // a copy in another heap shares the bytes
    let mut other = Heap::new(3);
    let copy = other.copy_from(&heap, large).unwrap();
    assert_eq!(other.used(), 3);
    assert_eq!(Arc::strong_count(&shared), 3);
    let message = Message::capture(&heap, large).unwrap();
    assert_eq!(message.words(), 3);
    assert_eq!(Arc::strong_count(&shared), 4);
    drop(message);
    assert_eq!(Arc::strong_count(&shared), 3);

    // a collection moves the cell and copies no byte
    let window = heap.subbinary_from_original(large, 1, 0, 2, 0).unwrap();
    let moved = heap.collect(&vec![window]);
    assert_eq!(heap.used(), 8);
    assert_eq!(Arc::strong_count(&shared), 3);
    let bytes = heap.binary_from_bytes(&[7, 7]).unwrap();
    assert_eq!(heap.compare(&atoms, moved[0], bytes), Order::Equal);

    // the bytes go with the last cell that shares them
    heap.collect(&Vec::new());
    assert_eq!(Arc::strong_count(&shared), 2);
    let mut check = Heap::new(10);
    let again = check.copy_from(&other, copy).unwrap();
    assert_eq!(check.kind(again), Kind::Bitstring);
    drop(check);
    drop(other);
    assert_eq!(Arc::strong_count(&shared), 1);
}
