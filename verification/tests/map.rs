use lumen_runtime::atom::AtomTable;
use lumen_runtime::erlang::is_greater_than_or_equal_2::is_greater_than_or_equal;
use lumen_runtime::exception::Exception;
use lumen_runtime::heap::Heap;
use lumen_runtime::map::TermMap;
use lumen_runtime::maps::put_3;
use lumen_runtime::term::Term;
use lumen_runtime::value::Order;

fn setup() -> (AtomTable, Heap, Term, Term, Term) {
    let mut atoms = AtomTable::new();
    let a = atoms.str_to_term("a");
    let b = atoms.str_to_term("b");
    let x = atoms.str_to_term("x");
    let mut heap = Heap::new(4096);
    heap.adopt(&atoms);
    (atoms, heap, a, b, x)
}

#[test]
fn shorter_map_is_less() {
    let (atoms, heap, a, b, _) = setup();
    let one = TermMap::new().put(&heap, &atoms, Term::SmallInteger(1), a);
    let two = one.put(&heap, &atoms, Term::SmallInteger(2), b);
    assert_eq!(one.len(), 1);
    assert_eq!(two.len(), 2);
    assert_eq!(one.cmp(&heap, &atoms, &two), Order::Less);
    assert_eq!(two.cmp(&heap, &atoms, &one), Order::Greater);
    assert_eq!(one.partial_cmp(&heap, &atoms, &two), Some(Order::Less));
    assert!(!one.eq(&heap, &atoms, &two));
    // a shorter map is less whatever it holds
    let large = TermMap::new().put(&heap, &atoms, Term::SmallInteger(100), b);
    assert_eq!(large.cmp(&heap, &atoms, &two), Order::Less);
}

#[test]
fn maps_of_one_size_compare_by_keys_then_by_values() {
    let (atoms, heap, a, b, _) = setup();
    let k12 = TermMap::new()
        .put(&heap, &atoms, Term::SmallInteger(2), a)
        .put(&heap, &atoms, Term::SmallInteger(1), b);
    let k13 = TermMap::new()
        .put(&heap, &atoms, Term::SmallInteger(1), a)
        .put(&heap, &atoms, Term::SmallInteger(3), a);
    // keys [1, 2] against [1, 3]: the keys decide, though the values go the other way
    assert_eq!(k12.cmp(&heap, &atoms, &k13), Order::Less);
    let other = TermMap::new()
        .put(&heap, &atoms, Term::SmallInteger(1), b)
        .put(&heap, &atoms, Term::SmallInteger(2), b);
    // the same keys: values in key order, [b, a] against [b, b]
    assert_eq!(k12.cmp(&heap, &atoms, &other), Order::Less);
    assert_eq!(other.cmp(&heap, &atoms, &k12), Order::Greater);
}

#[test]
fn maps_are_equal_whatever_the_order_of_the_puts() {
    let (atoms, mut heap, a, b, x) = setup();
    let tuple = heap.tuple_from_slice(&[a, b]).unwrap();
    let same_tuple = heap.tuple_from_slice(&[a, b]).unwrap();
    let keys = [Term::SmallInteger(3), a, tuple, Term::Nil, Term::SmallInteger(-1)];
    let mut forward = TermMap::new();
    for key in keys.iter() {
        forward = forward.put(&heap, &atoms, *key, x);
    }
    let mut backward = TermMap::new();
    for key in keys.iter().rev() {
        backward = backward.put(&heap, &atoms, *key, x);
    }
    assert!(forward.eq(&heap, &atoms, &backward));
    assert_eq!(forward.cmp(&heap, &atoms, &backward), Order::Equal);
    assert_eq!(forward.sorted_keys(&heap, &atoms), backward.sorted_keys(&heap, &atoms));
    // the keys come out in term order: numbers, atoms, tuples, the empty list
    assert_eq!(
        forward.sorted_keys(&heap, &atoms),
        vec![Term::SmallInteger(-1), Term::SmallInteger(3), a, tuple, Term::Nil]
    );
    let entries = forward.iter(&heap, &atoms);
    assert_eq!(entries.len(), 5);
    assert_eq!(entries[2], (a, x));
    // a key is found by its value, wherever its cells are
    assert_eq!(forward.get(&heap, &atoms, same_tuple), Some(x));
    assert!(forward.is_key(&heap, &atoms, same_tuple));
    assert_eq!(forward.get(&heap, &atoms, b), None);
    assert!(!forward.is_key(&heap, &atoms, Term::SmallInteger(4)));
    // putting under a key of the same value replaces
    let replaced = forward.put(&heap, &atoms, same_tuple, b);
    assert_eq!(replaced.len(), 5);
    assert_eq!(replaced.get(&heap, &atoms, tuple), Some(b));
    // the map that was put into is as it was
    assert_eq!(forward.get(&heap, &atoms, tuple), Some(x));
    let smaller = replaced.remove(&heap, &atoms, same_tuple);
    assert_eq!(smaller.len(), 4);
    assert_eq!(smaller.get(&heap, &atoms, tuple), None);
    assert_eq!(smaller.remove(&heap, &atoms, tuple).len(), 4);
    assert_eq!(smaller.size(&mut heap), Ok(Term::SmallInteger(4)));
}

#[test]
fn put_3_makes_a_new_map_term() {
    let (atoms, mut heap, a, b, x) = setup();
    let empty = heap.map_from_entries(&atoms, &[]).unwrap();
    let one = put_3::result(&mut heap, &atoms, a, x, empty).unwrap();
    let two = put_3::result(&mut heap, &atoms, b, x, one).unwrap();
    assert_eq!(heap.map_of(empty).unwrap().len(), 0);
    assert_eq!(heap.map_of(one).unwrap().len(), 1);
    assert_eq!(heap.map_of(two).unwrap().len(), 2);
    assert_eq!(heap.map_of(two).unwrap().get(&heap, &atoms, a), Some(x));
    assert_eq!(heap.compare(&atoms, one, two), Order::Less);
    assert!(is_greater_than_or_equal(&heap, &atoms, two, one));
    assert_eq!(put_3::result(&mut heap, &atoms, a, x, b), Err(Exception::Badmap));
    // of two entries with the same key the later one stays
    let from_entries = heap.map_from_entries(&atoms, &[(a, b), (b, x), (a, x)]).unwrap();
    assert_eq!(heap.compare(&atoms, from_entries, two), Order::Equal);
    // maps come after tuples and before lists
    let tuple = heap.tuple_from_slice(&[]).unwrap();
    assert_eq!(heap.compare(&atoms, tuple, empty), Order::Less);
    assert_eq!(heap.compare(&atoms, empty, Term::Nil), Order::Less);
    let mut full = Heap::new(2);
    full.adopt(&atoms);
    let none = full.map_from_entries(&atoms, &[]).unwrap();
    assert_eq!(put_3::result(&mut full, &atoms, a, x, none), Err(Exception::Alloc));
}

#[test]
fn a_map_survives_collection() {
    let (atoms, mut heap, a, b, x) = setup();
    let key = heap.tuple_from_slice(&[a, b]).unwrap();
    let value = heap.binary_from_bytes(b"value").unwrap();
    let map = heap
        .map_from_entries(&atoms, &[(key, value), (a, key), (Term::SmallInteger(1), x)])
        .unwrap();
    let _garbage = heap.binary_from_bytes(&[1u8; 100]).unwrap();
    let moved = heap.collect(&vec![map]);
    let collected = heap.map_of(moved[0]).unwrap();
    assert_eq!(collected.len(), 3);
    let probe_key = heap.tuple_from_slice(&[a, b]).unwrap();
    let collected = heap.map_of(moved[0]).unwrap();
    let found = collected.get(&heap, &atoms, probe_key).unwrap();
    let probe_value = heap.binary_from_bytes(b"value").unwrap();
    assert_eq!(heap.compare(&atoms, found, probe_value), Order::Equal);
    let collected = heap.map_of(moved[0]).unwrap();
    assert_eq!(collected.get(&heap, &atoms, Term::SmallInteger(1)), Some(x));
    assert_eq!(collected.sorted_keys(&heap, &atoms).len(), 3);
}

#[test]
fn a_map_is_cloned_into_another_heap() {
    let (atoms, mut heap, a, b, x) = setup();
    let key = heap.tuple_from_slice(&[a, b]).unwrap();
    let map = TermMap::new()
        .put(&heap, &atoms, key, x)
        .put(&heap, &atoms, Term::SmallInteger(1), key);
    let mut target = Heap::new(6);
    target.adopt(&atoms);
    let clone = map.clone_into_heap(&heap, &mut target).unwrap();
    // the tuple is copied twice, once as a key and once as a value
    assert_eq!(target.used(), 6);
    assert_eq!(clone.len(), 2);
    let probe = clone.sorted_keys(&target, &atoms);
    assert_eq!(probe[0], Term::SmallInteger(1));
    assert_eq!(clone.get(&target, &atoms, probe[1]), Some(x));
    let mut small = Heap::new(5);
    small.adopt(&atoms);
    assert!(map.clone_into_heap(&heap, &mut small).is_err());
}

#[test]
fn a_large_map_keeps_every_key() {
    let atoms = AtomTable::new();
    let heap = Heap::new(0);
    let mut map = TermMap::new();
    let count: i64 = 2000;
    // keys in an order that is neither ascending nor descending
    for i in 0..count {
        let key = (i * 7919) % count;
        map = map.put(&heap, &atoms, Term::SmallInteger(key), Term::SmallInteger(key * 2));
    }
    assert_eq!(map.len(), count as usize);
    let snapshot = map.put(&heap, &atoms, Term::SmallInteger(-1), Term::Nil);
    for i in 0..count {
        if i % 2 == 1 {
            map = map.remove(&heap, &atoms, Term::SmallInteger(i));
        }
    }
    assert_eq!(map.len(), (count / 2) as usize);
    for i in 0..count {
        let expected = if i % 2 == 0 { Some(Term::SmallInteger(i * 2)) } else { None };
        assert_eq!(map.get(&heap, &atoms, Term::SmallInteger(i)), expected);
        // the map that was put into before has every key still
        assert_eq!(
            snapshot.get(&heap, &atoms, Term::SmallInteger(i)),
            Some(Term::SmallInteger(i * 2))
        );
    }
    assert_eq!(snapshot.len(), count as usize + 1);
    let keys = map.sorted_keys(&heap, &atoms);
    assert_eq!(keys.len(), (count / 2) as usize);
    for (i, key) in keys.iter().enumerate() {
        assert_eq!(*key, Term::SmallInteger(2 * i as i64));
    }
    let entries = snapshot.iter(&heap, &atoms);
    assert_eq!(entries[0], (Term::SmallInteger(-1), Term::Nil));
    assert_eq!(entries[count as usize], (Term::SmallInteger(count - 1), Term::SmallInteger(2 * count - 2)));
    assert_eq!(map.cmp(&heap, &atoms, &snapshot), Order::Less);
}

#[test]
fn a_map_from_entries_takes_room_for_its_distinct_keys() {
    let (atoms, _, a, b, x) = setup();
    // three entries, two keys: a word for the map and two for each key
    let entries = [(a, b), (b, x), (a, x)];
    let mut exact = Heap::new(5);
    exact.adopt(&atoms);
    let map = exact.map_from_entries(&atoms, &entries).unwrap();
    assert_eq!(exact.used(), 5);
    assert_eq!(exact.map_of(map).unwrap().len(), 2);
    assert_eq!(exact.map_of(map).unwrap().get(&exact, &atoms, a), Some(x));
    let mut short = Heap::new(4);
    short.adopt(&atoms);
    assert!(short.map_from_entries(&atoms, &entries).is_err());
    assert_eq!(short.used(), 0);
    assert_eq!(short.len(), 0);
}

#[test]
fn a_copy_of_a_copy_takes_the_words_of_the_copy() {
    let (atoms, mut heap, a, b, x) = setup();
    // cells that are no part of the map cost the copy nothing
    heap.tuple_from_slice(&[x, x, x, x]).unwrap();
    let key = heap.tuple_from_slice(&[a, b]).unwrap();
    let map = TermMap::new()
        .put(&heap, &atoms, key, x)
        .put(&heap, &atoms, Term::SmallInteger(1), key);
    let mut first = Heap::new(16);
    first.adopt(&atoms);
    let copy = map.clone_into_heap(&heap, &mut first).unwrap();
    assert_eq!(first.used(), 6);
    let mut second = Heap::new(16);
    second.adopt(&atoms);
    second.cons(a, b).unwrap();
    let before = second.used();
    let again = copy.clone_into_heap(&first, &mut second).unwrap();
    assert_eq!(second.used() - before, first.used());
    assert_eq!(again.len(), 2);
    let keys = again.sorted_keys(&second, &atoms);
    assert_eq!(keys[0], Term::SmallInteger(1));
    assert_eq!(second.tuple_elements(keys[1]), Some(&vec![a, b]));
    assert_eq!(again.get(&second, &atoms, keys[1]), Some(x));
}
