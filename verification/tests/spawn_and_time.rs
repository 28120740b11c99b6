use lumen_runtime::atom::ATOM_OK;
use lumen_runtime::erlang::{
    convert_time_unit_3, iolist_to_iovec_1, registered_0, spawn_1, spawn_3, system_time_1,
};
use lumen_runtime::exception::Exception;
use lumen_runtime::frame::{out_of_code_frame, Frame, ModuleFunctionArity, APPLY_CODE};
use lumen_runtime::heap::{Heap, Object};
use lumen_runtime::process::{Status, MIN_HEAP_SIZE};
use lumen_runtime::scheduler::Scheduler;
use lumen_runtime::term::Term;
use lumen_runtime::value::Order;

#[test]
fn spawn_3_copies_the_arguments_to_the_new_process() {
    let mut scheduler = Scheduler::new();
    let module = scheduler.atoms.str_to_term("lists");
    let function = scheduler.atoms.str_to_term("reverse");
    let mut heap = Heap::new(64);
    heap.adopt(&scheduler.atoms);
    let inner = heap.list_from_slice(&[Term::SmallInteger(1), Term::SmallInteger(2)]).unwrap();
    let arguments = heap.list_from_slice(&[inner, Term::Nil]).unwrap();

    let pid = spawn_3::result(&mut scheduler, &heap, 7, module, function, arguments).unwrap();
    assert_eq!(pid, Term::Pid(0));
    assert_eq!(scheduler.status(0), Some(Status::Runnable));

    let mut child = scheduler.schedule().unwrap();
    assert_eq!(child.parent, Some(7));
    assert_eq!(child.heap.capacity(), MIN_HEAP_SIZE);
    // the list of two takes four words, and each argument one on the stack
    assert_eq!(child.heap.used(), 4);
    assert_eq!(child.heap.available(), MIN_HEAP_SIZE - 6);
    let expected = Frame::new(
        ModuleFunctionArity {
            module: match module {
                Term::Atom(index) => index,
                _ => panic!("an atom"),
            },
            function: match function {
                Term::Atom(index) => index,
                _ => panic!("an atom"),
            },
            arity: 2,
        },
        APPLY_CODE,
    );
    assert_eq!(child.frames, vec![out_of_code_frame(), expected]);
    // the first argument is on top
    let first = child.stack_pop().unwrap();
    let second = child.stack_pop().unwrap();
    assert_eq!(child.stack_pop(), None);
    assert_eq!(second, Term::Nil);
    assert_eq!(
        child.heap.list_to_vec(first),
        Some(vec![Term::SmallInteger(1), Term::SmallInteger(2)])
    );
    // the copy shares nothing with the heap of whoever spawned
    heap.collect(&Vec::new());
    assert_eq!(child.heap.list_to_vec(first).unwrap().len(), 2);

    assert_eq!(
        spawn_3::result(&mut scheduler, &heap, 7, Term::Nil, function, Term::Nil),
        Err(Exception::Badarg)
    );
    assert_eq!(
        spawn_3::result(&mut scheduler, &heap, 7, module, function, Term::SmallInteger(1)),
        Err(Exception::Badarg)
    );
    assert_eq!(
        spawn_3::result(&mut scheduler, &heap, 7, module, function, Term::Nil),
        Ok(Term::Pid(1))
    );
}

#[test]
fn names_are_registered_once() {
    let mut scheduler = Scheduler::new();
    let frame = Frame::new(ModuleFunctionArity { module: ATOM_OK, function: ATOM_OK, arity: 0 }, 7);
    let first = scheduler.spawn(None, frame, 0).unwrap();
    let second = scheduler.spawn(None, frame, 0).unwrap();
    let logger = scheduler.intern(b"logger");
    let server = scheduler.intern(b"server");
    assert!(scheduler.register(logger, first));
    assert!(!scheduler.register(logger, second));
    assert!(!scheduler.register(server, first));
    assert!(!scheduler.register(usize::MAX, second));
    assert!(scheduler.register(server, second));
    assert_eq!(scheduler.whereis(logger), Some(first));
    assert_eq!(scheduler.whereis(server), Some(second));
    assert_eq!(scheduler.whereis(ATOM_OK), None);
    assert_eq!(scheduler.registered_name(second), Some(server));

    let mut heap = Heap::new(4);
    heap.adopt(&scheduler.atoms);
    let list = registered_0::result(&scheduler, &mut heap).unwrap();
    assert_eq!(heap.list_to_vec(list), Some(vec![Term::Atom(logger), Term::Atom(server)]));
    assert_eq!(heap.available(), 0);
    assert_eq!(registered_0::result(&scheduler, &mut heap), Err(Exception::Alloc));

    assert!(scheduler.unregister(logger));
    assert!(!scheduler.unregister(logger));
    assert_eq!(scheduler.whereis(logger), None);
    let mut heap = Heap::new(4);
    heap.adopt(&scheduler.atoms);
    let list = registered_0::result(&scheduler, &mut heap).unwrap();
    assert_eq!(heap.list_to_vec(list), Some(vec![Term::Atom(server)]));
}

#[test]
fn times_are_converted_rounding_down() {
    let mut scheduler = Scheduler::new();
    let second = scheduler.atoms.str_to_term("second");
    let millisecond = scheduler.atoms.str_to_term("millisecond");
    let microsecond = scheduler.atoms.str_to_term("microsecond");
    let nanosecond = scheduler.atoms.str_to_term("nanosecond");
    let native = scheduler.atoms.str_to_term("native");
    let minute = scheduler.atoms.str_to_term("minute");
    let atoms = &scheduler.atoms;
    let mut heap = Heap::new(64);
    heap.adopt(atoms);
    let convert = |heap: &mut Heap, time: i64, from: Term, to: Term| {
        convert_time_unit_3::result(heap, atoms, Term::SmallInteger(time), from, to)
    };
    assert_eq!(convert(&mut heap, 1, second, millisecond), Ok(Term::SmallInteger(1000)));
    assert_eq!(convert(&mut heap, 1999, millisecond, second), Ok(Term::SmallInteger(1)));
    assert_eq!(convert(&mut heap, -1, millisecond, second), Ok(Term::SmallInteger(-1)));
    assert_eq!(convert(&mut heap, -1000, millisecond, second), Ok(Term::SmallInteger(-1)));
    assert_eq!(convert(&mut heap, -1001, millisecond, second), Ok(Term::SmallInteger(-2)));
    assert_eq!(convert(&mut heap, 3, microsecond, nanosecond), Ok(Term::SmallInteger(3000)));
    assert_eq!(convert(&mut heap, 5, native, nanosecond), Ok(Term::SmallInteger(5)));
    assert_eq!(
        convert(&mut heap, 7, Term::SmallInteger(2), Term::SmallInteger(3)),
        Ok(Term::SmallInteger(10))
    );
    assert_eq!(convert(&mut heap, 1, minute, second), Err(Exception::Badarg));
    assert_eq!(convert(&mut heap, 1, second, Term::SmallInteger(0)), Err(Exception::Badarg));
    assert_eq!(
        convert_time_unit_3::result(&mut heap, atoms, Term::Nil, second, second),
        Err(Exception::Badarg)
    );
    // a result that is no small integer
    let large = convert(&mut heap, i64::MAX / 64, second, nanosecond).unwrap();
    let expected = heap.integer((i64::MAX / 64) as i128 * 1_000_000_000).unwrap();
    assert!(matches!(large, Term::Boxed(_)));
    assert_eq!(heap.compare(atoms, large, expected), Order::Equal);

    assert_eq!(
        system_time_1::result(&mut heap, atoms, millisecond, 1_234_567_890),
        Ok(Term::SmallInteger(1234))
    );
    assert_eq!(
        system_time_1::result(&mut heap, atoms, native, 1_234_567_890),
        Ok(Term::SmallInteger(1_234_567_890))
    );
    assert_eq!(system_time_1::result(&mut heap, atoms, Term::Nil, 1), Err(Exception::Badarg));
}

#[test]
fn an_iolist_becomes_one_binary() {
    let mut heap = Heap::new(256);
    let hello = heap.binary_from_bytes(b"hel").unwrap();
    let inner = heap.list_from_slice(&[Term::SmallInteger(108), Term::SmallInteger(111)]).unwrap();
    let tail = heap.binary_from_bytes(b"!").unwrap();
    // [<<"hel">>, [$l, $o] | <<"!">>]
    let iolist = heap.improper_list_from_slice(&[hello, inner], tail).unwrap();
    let vector = iolist_to_iovec_1::result(&mut heap, iolist).unwrap();
    let items = heap.list_to_vec(vector).unwrap();
    assert_eq!(items.len(), 1);
    match items[0] {
        Term::Boxed(p) => match heap.object(p) {
            Object::HeapBinary(bytes) => assert_eq!(bytes.as_slice(), b"hello!"),
            _ => panic!("a binary"),
        },
        _ => panic!("a binary"),
    }
    let of_binary = iolist_to_iovec_1::iolist_or_binary_to_iovec(&mut heap, hello).unwrap();
    assert_eq!(heap.list_to_vec(of_binary).unwrap().len(), 1);
    let of_nothing = iolist_to_iovec_1::result(&mut heap, Term::Nil).unwrap();
    assert_eq!(heap.list_to_vec(of_nothing).unwrap().len(), 1);
    // not an iolist: an integer that is no byte, an integer at the end, a term that is no list
    let wide = heap.list_from_slice(&[Term::SmallInteger(256)]).unwrap();
    assert_eq!(iolist_to_iovec_1::result(&mut heap, wide), Err(Exception::Badarg));
    let improper = heap.cons(Term::SmallInteger(1), Term::SmallInteger(2)).unwrap();
    assert_eq!(iolist_to_iovec_1::result(&mut heap, improper), Err(Exception::Badarg));
    assert_eq!(iolist_to_iovec_1::result(&mut heap, Term::SmallInteger(1)), Err(Exception::Badarg));
    let bits_of = heap.binary_from_bytes(&[0xff]).unwrap();
    let bits = heap.subbinary_from_original(bits_of, 0, 0, 0, 3).unwrap();
    assert_eq!(iolist_to_iovec_1::result(&mut heap, bits), Err(Exception::Badarg));
    let mut full = Heap::new(4);
    let small = full.binary_from_bytes(b"ab").unwrap();
    assert_eq!(iolist_to_iovec_1::result(&mut full, small), Err(Exception::Alloc));
}

#[test]
fn spawn_1_runs_a_function_that_takes_no_argument() {
    let mut scheduler = Scheduler::new();
    let module = scheduler.intern(b"worker");
    let mut heap = Heap::new(64);
    heap.adopt(&scheduler.atoms);
    let captured = heap.tuple_from_slice(&[Term::SmallInteger(1)]).unwrap();
    let function = heap.closure(module, 3, 0, &[captured, Term::Nil]).unwrap();
    let with_argument = heap.closure(module, 4, 1, &[]).unwrap();
    assert_eq!(heap.used(), 2 + 4 + 2);

    assert_eq!(spawn_1::result(&mut scheduler, &heap, 5, function), Ok(Term::Pid(0)));
    assert_eq!(
        spawn_1::result(&mut scheduler, &heap, 5, with_argument),
        Err(Exception::Badarg)
    );
    assert_eq!(spawn_1::result(&mut scheduler, &heap, 5, captured), Err(Exception::Badarg));
    assert_eq!(spawn_1::result(&mut scheduler, &heap, 5, Term::Nil), Err(Exception::Badarg));

    let mut child = scheduler.schedule().unwrap();
    assert_eq!(child.parent, Some(5));
    assert_eq!(child.frames[1].code, APPLY_CODE);
    assert_eq!(child.frames[1].module_function_arity.module, module);
    // the tuple, the function, and a word of stack
    assert_eq!(child.heap.used(), 2 + 4);
    let copy = child.stack_pop().unwrap();
    match child.heap.object(match copy {
        Term::Boxed(p) => p,
        _ => panic!("a function is boxed"),
    }) {
        Object::Closure(closure) => {
            assert_eq!(closure.module, module);
            assert_eq!(closure.index, 3);
            assert_eq!(closure.arity, 0);
            assert_eq!(closure.environment.len(), 2);
            assert_eq!(closure.environment[1], Term::Nil);
            assert_eq!(
                child.heap.tuple_elements(closure.environment[0]),
                Some(&vec![Term::SmallInteger(1)])
            );
        }
        _ => panic!("a function"),
    }

    // functions come after references and before process identifiers
    let atoms = &scheduler.atoms;
    assert_eq!(heap.compare(atoms, Term::Reference(9), function), Order::Less);
    assert_eq!(heap.compare(atoms, function, Term::Pid(0)), Order::Less);
    assert_eq!(heap.compare(atoms, function, with_argument), Order::Less);
    assert_eq!(heap.compare(atoms, with_argument, function), Order::Greater);
    let same = heap.closure(module, 3, 0, &[captured, Term::Nil]).unwrap();
    assert_eq!(heap.compare(atoms, function, same), Order::Equal);
    // a function survives a collection with what it closed over
    let moved = heap.collect(&vec![same]);
    assert_eq!(heap.used(), 2 + 4);
    let mut both = Heap::new(64);
    both.adopt(atoms);
    let a = both.copy_from(&heap, moved[0]).unwrap();
    let b = both.copy_from(&child.heap, copy).unwrap();
    assert_eq!(both.compare(atoms, a, b), Order::Equal);
}

#[test]
fn a_time_of_any_size_is_converted() {
    let mut scheduler = Scheduler::new();
    let second = scheduler.atoms.str_to_term("second");
    let millisecond = scheduler.atoms.str_to_term("millisecond");
    let nanosecond = scheduler.atoms.str_to_term("nanosecond");
    let atoms = &scheduler.atoms;
    let mut heap = Heap::new(64);
    heap.adopt(atoms);
    // 2 to the power 70 seconds, and its negative less one millisecond
    let time = heap.integer(1i128 << 70).unwrap();
    let used = heap.used();
    let converted = convert_time_unit_3::result(&mut heap, atoms, time, second, millisecond).unwrap();
    let expected = heap.integer((1i128 << 70) * 1000).unwrap();
    assert_eq!(heap.compare(atoms, converted, expected), Order::Equal);
    // the result has three digits, which take three words, as the expected one does
    assert_eq!(heap.used(), used + 6);
    let back = convert_time_unit_3::result(&mut heap, atoms, converted, millisecond, second).unwrap();
    assert_eq!(heap.compare(atoms, back, time), Order::Equal);

    let negative = heap.integer(-(1i128 << 70) * 1000 - 1).unwrap();
    let down = convert_time_unit_3::result(&mut heap, atoms, negative, millisecond, second).unwrap();
    let expected = heap.integer(-(1i128 << 70) - 1).unwrap();
    assert_eq!(heap.compare(atoms, down, expected), Order::Equal);

    // a time beyond 128 bits
    let wide = convert_time_unit_3::result(&mut heap, atoms, expected, second, nanosecond).unwrap();
    let wider = convert_time_unit_3::result(&mut heap, atoms, wide, second, nanosecond).unwrap();
    let wider = convert_time_unit_3::result(&mut heap, atoms, wider, second, nanosecond).unwrap();
    let home = convert_time_unit_3::result(&mut heap, atoms, wider, nanosecond, second).unwrap();
    let home = convert_time_unit_3::result(&mut heap, atoms, home, nanosecond, second).unwrap();
    let home = convert_time_unit_3::result(&mut heap, atoms, home, nanosecond, second).unwrap();
    assert_eq!(heap.compare(atoms, home, expected), Order::Equal);

    // a unit may be any positive integer
    let unit = heap.integer(1i128 << 64).unwrap();
    let parts = convert_time_unit_3::result(&mut heap, atoms, Term::SmallInteger(3), second, unit).unwrap();
    let expected = heap.integer(3i128 << 64).unwrap();
    assert_eq!(heap.compare(atoms, parts, expected), Order::Equal);
    assert_eq!(
        convert_time_unit_3::result(&mut heap, atoms, expected, unit, second),
        Ok(Term::SmallInteger(3))
    );
    let below = heap.integer(-(1i128 << 64)).unwrap();
    assert_eq!(
        convert_time_unit_3::result(&mut heap, atoms, Term::SmallInteger(3), second, below),
        Err(Exception::Badarg)
    );
    assert_eq!(
        convert_time_unit_3::result(&mut heap, atoms, Term::SmallInteger(3), Term::SmallInteger(-1), second),
        Err(Exception::Badarg)
    );

    // where the heap has no room for the result, nothing is taken
    let mut full = Heap::new(3);
    full.adopt(atoms);
    let time = full.integer(1i128 << 62).unwrap();
    assert_eq!(full.used(), 2);
    assert_eq!(
        convert_time_unit_3::result(&mut full, atoms, time, second, millisecond),
        Err(Exception::Alloc)
    );
    assert_eq!(
        convert_time_unit_3::result(&mut full, atoms, time, millisecond, second),
        Ok(Term::SmallInteger((1i64 << 62) / 1000))
    );
    assert_eq!(full.used(), 2);
    assert_eq!(
        system_time_1::result(&mut full, atoms, second, -1),
        Ok(Term::SmallInteger(-1))
    );
    assert_eq!(
        system_time_1::result(&mut full, atoms, Term::SmallInteger(3), -1_000_000_001),
        Ok(Term::SmallInteger(-4))
    );
}

#[test]
fn a_time_in_digits_is_multiplied_and_then_divided_rounding_down() {
    // 7 thirds, and minus 7 thirds
    assert_eq!(convert_time_unit_3::convert(false, &[7], &[3], &[1]), (false, vec![2]));
    assert_eq!(convert_time_unit_3::convert(true, &[7], &[3], &[1]), (true, vec![3]));
    assert_eq!(convert_time_unit_3::convert(true, &[7], &[3], &[3]), (true, vec![7]));
    assert_eq!(convert_time_unit_3::convert(false, &[], &[3], &[1000]), (false, vec![]));
    // 2 to the power 32 seconds in milliseconds
    assert_eq!(convert_time_unit_3::convert(false, &[0, 1], &[1], &[1000]), (false, vec![0, 1000]));
    // a unit of 2 to the power 64 parts
    assert_eq!(convert_time_unit_3::convert(true, &[1], &[0, 0, 1], &[1]), (true, vec![1]));
    assert_eq!(convert_time_unit_3::convert(false, &[3], &[2], &[0, 0, 1]), (false, vec![0, 0x8000_0000, 1]));
}
