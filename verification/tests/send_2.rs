use lumen_runtime::erlang::send_2::result;
use lumen_runtime::frame::{Frame, ModuleFunctionArity};
use lumen_runtime::process::Process;
use lumen_runtime::scheduler::Scheduler;
use lumen_runtime::term::{Term, MAX_SMALL_INTEGER};
use lumen_runtime::value::Order;

fn with_process<F: FnOnce(&mut Scheduler, &mut Process)>(f: F) {
    let mut scheduler = Scheduler::new();
    let module = scheduler.intern(b"test");
    let function = scheduler.intern(b"run");
    let frame = Frame::new(ModuleFunctionArity { module, function, arity: 0 }, 7);
    scheduler.spawn(None, frame, 0).unwrap();
    let mut process = scheduler.schedule().unwrap();
    f(&mut scheduler, &mut process);
}

fn with_message_adds_process_message_to_mailbox_and_returns_message<M>(message: M)
where
    M: FnOnce(&mut Scheduler, &mut Process) -> Term,
{
    with_process(|scheduler, process| {
        let destination = Term::Pid(process.pid);
        let message = message(scheduler, process);

        assert_eq!(result(scheduler, process, destination, message), Ok(message));

        assert_eq!(process.mailbox.len(), 1);
        let received = process.receive(&scheduler.atoms).unwrap().unwrap();
        assert_eq!(process.heap.compare(&scheduler.atoms, received, message), Order::Equal);
        assert_eq!(process.mailbox.len(), 0);
    })
}

#[test]
fn with_atom_message_adds_process_message_to_mailbox_and_returns_message() {
    with_message_adds_process_message_to_mailbox_and_returns_message(|scheduler, _| {
        Term::Reference(scheduler.next_reference().unwrap())
    });
}

#[test]
fn with_local_reference_message_adds_process_message_to_mailbox_and_returns_message() {
    with_message_adds_process_message_to_mailbox_and_returns_message(|scheduler, _| {
        Term::Reference(scheduler.next_reference().unwrap())
    });
}

#[test]
fn with_empty_list_message_adds_process_message_to_mailbox_and_returns_message() {
    with_message_adds_process_message_to_mailbox_and_returns_message(|_, _| Term::Nil);
}

#[test]
fn with_list_message_adds_process_message_to_mailbox_and_returns_message() {
    with_message_adds_process_message_to_mailbox_and_returns_message(|_, process| {
        process.heap.cons(Term::SmallInteger(0), Term::SmallInteger(1)).unwrap()
    });
}

#[test]
fn with_small_integer_message_adds_process_message_to_mailbox_and_returns_message() {
    with_message_adds_process_message_to_mailbox_and_returns_message(|_, _| Term::SmallInteger(0));
}

#[test]
fn with_big_integer_message_adds_process_message_to_mailbox_and_returns_message() {
    with_message_adds_process_message_to_mailbox_and_returns_message(|_, process| {
        let big = process.heap.integer(MAX_SMALL_INTEGER as i128 + 1).unwrap();
        assert!(matches!(big, Term::Boxed(_)));
        big
    });
}

#[test]
fn with_local_pid_message_adds_process_message_to_mailbox_and_returns_message() {
    with_message_adds_process_message_to_mailbox_and_returns_message(|_, _| Term::Pid(1));
}

#[test]
fn with_tuple_message_adds_process_message_to_mailbox_and_returns_message() {
    with_message_adds_process_message_to_mailbox_and_returns_message(|_, process| {
        process.heap.tuple_from_slice(&[]).unwrap()
    });
}

#[test]
fn with_map_message_adds_process_message_to_mailbox_and_returns_message() {
    with_message_adds_process_message_to_mailbox_and_returns_message(|scheduler, process| {
        process.heap.map_from_entries(&scheduler.atoms, &[]).unwrap()
    });
}

#[test]
fn with_heap_binary_message_adds_process_message_to_mailbox_and_returns_message() {
    with_message_adds_process_message_to_mailbox_and_returns_message(|_, process| {
        process.heap.binary_from_bytes(&[]).unwrap()
    });
}

#[test]
fn with_subbinary_message_adds_process_message_to_mailbox_and_returns_message() {
    with_message_adds_process_message_to_mailbox_and_returns_message(|_, process| {
        let original = process.heap.binary_from_bytes(&[0b1000_0000]).unwrap();
        assert!(process.heap.is_window_within(original, 0, 0, 0, 1));
        process.heap.subbinary_from_original(original, 0, 0, 0, 1).unwrap()
    });
}

#[test]
fn send_to_another_process_wakes_it_and_keeps_the_order() {
    let mut scheduler = Scheduler::new();
    let module = scheduler.intern(b"test");
    let function = scheduler.intern(b"run");
    let frame = Frame::new(ModuleFunctionArity { module, function, arity: 0 }, 7);
    let first = scheduler.spawn(None, frame, 0).unwrap();
    let second = scheduler.spawn(Some(first), frame, 0).unwrap();

    // the second process runs and blocks on an empty mailbox
    let p1 = scheduler.schedule().unwrap();
    assert_eq!(p1.pid, first);
    scheduler.complete(p1, lumen_runtime::scheduler::Outcome::Yielded);
    let p2 = scheduler.schedule().unwrap();
    assert_eq!(p2.pid, second);
    scheduler.complete(p2, lumen_runtime::scheduler::Outcome::Blocked);
    assert_eq!(scheduler.status(second), Some(lumen_runtime::process::Status::Waiting));

    let mut sender = scheduler.schedule().unwrap();
    assert_eq!(sender.pid, first);
    for n in [1i64, 2, 3] {
        assert_eq!(
            result(&mut scheduler, &mut sender, Term::Pid(second), Term::SmallInteger(n)),
            Ok(Term::SmallInteger(n))
        );
    }
    assert_eq!(sender.mailbox.len(), 0);
    assert_eq!(scheduler.status(second), Some(lumen_runtime::process::Status::Runnable));
    scheduler.complete(sender, lumen_runtime::scheduler::Outcome::Yielded);

    let mut receiver = scheduler.schedule().unwrap();
    assert_eq!(receiver.pid, second);
    for n in [1i64, 2, 3] {
        assert_eq!(receiver.receive(&scheduler.atoms), Ok(Some(Term::SmallInteger(n))));
    }
    assert_eq!(receiver.receive(&scheduler.atoms), Ok(None));

    // a destination that is no process identifier is refused
    assert_eq!(
        result(&mut scheduler, &mut receiver, Term::Nil, Term::Nil),
        Err(lumen_runtime::exception::Exception::Badarg)
    );
    // a message for no process is dropped
    assert_eq!(result(&mut scheduler, &mut receiver, Term::Pid(99), Term::Nil), Ok(Term::Nil));
}
