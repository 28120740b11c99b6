use lumen_runtime::atom::{ATOM_BADARG, ATOM_DOWN, ATOM_ERROR, ATOM_OK, ATOM_PROCESS, ATOM_TIMEOUT};
use lumen_runtime::exception::Exception;
use lumen_runtime::frame::{Frame, ModuleFunctionArity};
use lumen_runtime::heap::{Alloc, Heap, Object};
use lumen_runtime::process::{ExitReason, Status};
use lumen_runtime::scheduler::{Outcome, Scheduler};
use lumen_runtime::term::Term;
use lumen_runtime::web::{error_tuple, ok_tuple, option_to_ok_tuple_or_error};

fn frame(code: usize) -> Frame {
    Frame::new(ModuleFunctionArity { module: ATOM_OK, function: ATOM_OK, arity: 0 }, code)
}

#[test]
fn a_turn_begins_with_the_ends_passed_on_and_told_and_the_timers_fired() {
    let mut scheduler = Scheduler::new();
    let a = scheduler.spawn(None, frame(50), 0).unwrap();
    let b = scheduler.spawn(None, frame(51), 0).unwrap();
    let c = scheduler.spawn(None, frame(52), 0).unwrap();
    let d = scheduler.spawn(None, frame(53), 0).unwrap();
    assert!(scheduler.link(a, b));
    assert!(scheduler.link(c, b));
    let watching = scheduler.monitor(d, c).unwrap();
    let heap = Heap::new(0);
    let timer = scheduler.start_timer(0, 10, d, &heap, Term::Nil).unwrap();
    let late = scheduler.start_timer(0, 100, d, &heap, Term::Nil).unwrap();

    let process = scheduler.begin_turn(0).unwrap();
    assert_eq!(process.pid, a);
    assert_eq!(process.status, Status::Running);
    assert_eq!(process.reductions, 0);
    assert_eq!(scheduler.running, Some(a));
    scheduler.complete(process, Outcome::Failed(Exception::Badarg));

    // the end of a takes b down, and the end of b takes c down; d is told
    // of the end of c and gets the message of the timer that is due
    let process = scheduler.begin_turn(10).unwrap();
    assert_eq!(process.pid, d);
    assert!(scheduler.signals.is_empty());
    assert!(scheduler.exits.is_empty());
    assert!(scheduler.links.is_empty());
    assert!(scheduler.run_queue.is_empty());
    assert_eq!(scheduler.status(b), Some(Status::Exited(ExitReason::Error(Exception::Badarg))));
    assert_eq!(scheduler.status(c), Some(Status::Exited(ExitReason::Error(Exception::Badarg))));
    assert_eq!(scheduler.wheel.timers.len(), 1);
    assert_eq!(scheduler.wheel.timers[0].reference, late);
    let mut process = process;
    let down = process.receive(&scheduler.atoms).unwrap().unwrap();
    assert_eq!(
        process.heap.tuple_elements(down).unwrap(),
        &vec![
            Term::Atom(ATOM_DOWN),
            Term::Reference(watching),
            Term::Atom(ATOM_PROCESS),
            Term::Pid(c),
            Term::Atom(ATOM_BADARG),
        ]
    );
    let fired = process.receive(&scheduler.atoms).unwrap().unwrap();
    assert_eq!(
        process.heap.tuple_elements(fired).unwrap(),
        &vec![Term::Atom(ATOM_TIMEOUT), Term::Reference(timer), Term::Nil]
    );
    assert_eq!(process.receive(&scheduler.atoms), Ok(None));
    scheduler.complete(process, Outcome::Blocked);

    // nothing is runnable until the other timer is due
    assert!(scheduler.begin_turn(99).is_none());
    assert_eq!(scheduler.running, None);
    let process = scheduler.begin_turn(100).unwrap();
    assert_eq!(process.pid, d);
    assert_eq!(process.mailbox.len(), 1);
    assert!(scheduler.wheel.timers.is_empty());
}

#[test]
fn settling_changes_nothing_where_no_end_waits() {
    let mut scheduler = Scheduler::new();
    let a = scheduler.spawn(None, frame(50), 0).unwrap();
    let b = scheduler.spawn(None, frame(51), 0).unwrap();
    assert!(scheduler.link(a, b));
    scheduler.settle();
    assert_eq!(scheduler.run_queue, vec![a, b]);
    assert_eq!(scheduler.links, vec![(a, b)]);
    assert_eq!(scheduler.status(a), Some(Status::Runnable));
    assert_eq!(scheduler.status(b), Some(Status::Runnable));
}

#[test]
fn a_value_is_replied_in_a_tuple_after_ok() {
    let mut heap = Heap::new(8);
    let value = heap.binary_from_bytes(b"form").unwrap();
    let used = heap.used();
    let reply = ok_tuple(&mut heap, value).unwrap();
    assert_eq!(heap.tuple_elements(reply).unwrap(), &vec![Term::Atom(ATOM_OK), value]);
    assert_eq!(heap.used(), used + 3);
    assert_eq!(
        option_to_ok_tuple_or_error(&mut heap, None),
        Ok(Term::Atom(ATOM_ERROR))
    );
    assert_eq!(heap.used(), used + 3);
    let again = option_to_ok_tuple_or_error(&mut heap, Some(Term::SmallInteger(7))).unwrap();
    assert_eq!(
        heap.tuple_elements(again).unwrap(),
        &vec![Term::Atom(ATOM_OK), Term::SmallInteger(7)]
    );
    // no room is left for a third tuple
    assert_eq!(heap.available(), 0);
    assert_eq!(ok_tuple(&mut heap, value), Err(Alloc));
    assert_eq!(option_to_ok_tuple_or_error(&mut heap, Some(value)), Err(Alloc));
    assert_eq!(option_to_ok_tuple_or_error(&mut heap, None), Ok(Term::Atom(ATOM_ERROR)));
}

#[test]
fn a_syntax_error_is_replied_in_a_tuple_after_error() {
    let mut scheduler = Scheduler::new();
    let tag = scheduler.atoms.str_to_term("syntax");
    let mut heap = Heap::new(9);
    heap.adopt(&scheduler.atoms);
    // the message takes three words, and the two tuples three each
    let reply = error_tuple(&mut heap, tag, b"unexpected token").unwrap();
    assert_eq!(heap.used(), 9);
    let elements = heap.tuple_elements(reply).unwrap().clone();
    assert_eq!(elements.len(), 2);
    assert_eq!(elements[0], Term::Atom(ATOM_ERROR));
    let reason = heap.tuple_elements(elements[1]).unwrap().clone();
    assert_eq!(reason[0], tag);
    match reason[1] {
        Term::Boxed(p) => match heap.object(p) {
            Object::HeapBinary(bytes) => assert_eq!(bytes.as_slice(), b"unexpected token"),
            _ => panic!("the message is a binary"),
        },
        _ => panic!("the message is a binary"),
    }
    // nothing is built where there is no room for all of it
    let mut small = Heap::new(8);
    small.adopt(&scheduler.atoms);
    assert_eq!(error_tuple(&mut small, tag, b"unexpected token"), Err(Alloc));
    assert_eq!(small.used(), 0);
    assert_eq!(small.len(), 0);
}
