use lumen_runtime::atom::{ATOM_OK, ATOM_UNDEFINED};
use lumen_runtime::erlang::erase_1;
use lumen_runtime::exception::Exception;
use lumen_runtime::frame::{
    out_of_code_frame, Frame, FrameWithArguments, ModuleFunctionArity, Placement, INIT_CODE,
};
use lumen_runtime::heap::Alloc;
use lumen_runtime::message::Message;
use lumen_runtime::process::{
    init, next_heap_size, runnable, ExitReason, Process, Status, Step, MAX_HEAP_SIZE,
    MAX_REDUCTIONS, MIN_HEAP_SIZE,
};
use lumen_runtime::scheduler::{Outcome, Scheduler};
use lumen_runtime::term::Term;

fn frame(code: usize) -> Frame {
    Frame::new(ModuleFunctionArity { module: ATOM_OK, function: ATOM_OK, arity: 0 }, code)
}

#[test]
fn heap_sizes_double_from_the_smallest() {
    assert_eq!(next_heap_size(0), MIN_HEAP_SIZE);
    assert_eq!(next_heap_size(MIN_HEAP_SIZE), MIN_HEAP_SIZE);
    assert_eq!(next_heap_size(MIN_HEAP_SIZE + 1), 2 * MIN_HEAP_SIZE);
    assert_eq!(next_heap_size(1000), 8 * MIN_HEAP_SIZE);
    assert_eq!(next_heap_size(usize::MAX), usize::MAX);
}

#[test]
fn init_makes_the_first_process_runnable() {
    let process = init(0).unwrap();
    assert_eq!(process.pid, 0);
    assert_eq!(process.status, Status::Runnable);
    assert_eq!(process.heap.capacity(), MIN_HEAP_SIZE);
    assert_eq!(process.frames.len(), 2);
    assert_eq!(process.frames[0], out_of_code_frame());
    assert_eq!(process.frames[1].code, INIT_CODE);
    assert!(process.stack.is_empty());
    assert!(init(MAX_HEAP_SIZE + 1).is_err());
    assert!(init((233 << 18) + 1).is_err());
    assert_eq!(init(233 << 18).unwrap().heap.capacity(), 233 << 18);
    assert!((233 << 18) <= MAX_HEAP_SIZE);
}

#[test]
fn runnable_pushes_the_frames_so_that_the_first_is_on_top() {
    let mut process = Process::new(3, None, frame(0).module_function_arity, 16, 16);
    assert_eq!(process.status, Status::Waiting);
    let one = Term::SmallInteger(1);
    let two = Term::SmallInteger(2);
    let three = Term::SmallInteger(3);
    let frames: Vec<FrameWithArguments> = vec![
        frame(10).with_arguments(false, &[one, two]),
        frame(11).with_arguments(false, &[three]),
    ];
    assert_eq!(runnable(&mut process, frames), Ok(()));
    assert_eq!(process.status, Status::Runnable);
    assert_eq!(process.frames, vec![out_of_code_frame(), frame(11), frame(10)]);
    // the arguments of the first frame are on top, its first argument topmost
    assert_eq!(process.stack, vec![three, two, one]);
    assert_eq!(process.heap.available(), 13);
    assert_eq!(process.stack_pop(), Some(one));
    assert_eq!(process.heap.available(), 14);
    assert_eq!(process.current_frame(), Some(frame(10)));

    // replacing keeps the depth of the call stack
    process.place_frame(frame(12), Placement::Replace);
    assert_eq!(process.frames, vec![out_of_code_frame(), frame(11), frame(12)]);
    process.place_frame(frame(13), Placement::Push);
    assert_eq!(process.frames.len(), 4);
    assert_eq!(process.pop_frame(), Some(frame(13)));

    // arguments that do not fit leave the process as it was
    let mut small = Process::new(4, None, frame(0).module_function_arity, 2, 2);
    let frames: Vec<FrameWithArguments> = vec![frame(10).with_arguments(false, &[one, two, three])];
    assert_eq!(runnable(&mut small, frames), Err(Alloc));
    assert_eq!(small.status, Status::Waiting);
    assert!(small.frames.is_empty());
    assert!(small.stack.is_empty());
    assert_eq!(small.stack_push(one), Ok(()));
    assert_eq!(small.stack_push(two), Ok(()));
    assert_eq!(small.stack_push(three), Err(Alloc));
    assert_eq!(small.stack_push_slice(&[]), Ok(()));
}

#[test]
fn a_tight_loop_yields_when_its_reductions_are_used_up() {
    let mut scheduler = Scheduler::new();
    let looping = scheduler.spawn(None, frame(20), 0).unwrap();
    let other = scheduler.spawn(None, frame(21), 0).unwrap();

    let mut process = scheduler.schedule().unwrap();
    assert_eq!(process.pid, looping);
    assert_eq!(process.status, Status::Running);
    assert_eq!(scheduler.status(looping), Some(Status::Running));
    let mut calls: u64 = 0;
    loop {
        match process.next_step() {
            // the code of the loop never takes its frame off the stack
            Step::Call(called) => {
                assert_eq!(called, frame(20));
                calls += 1;
            }
            Step::Yield => break,
            Step::Exit => panic!("the loop does not end"),
        }
    }
    assert_eq!(calls, MAX_REDUCTIONS);
    assert!(process.is_reduced());
    process.reduce();
    assert_eq!(process.reductions, MAX_REDUCTIONS + 1);
    assert_eq!(process.next_step(), Step::Yield);
    scheduler.complete(process, Outcome::Yielded);

    // the other process runs before the loop runs again
    let next = scheduler.schedule().unwrap();
    assert_eq!(next.pid, other);
    scheduler.complete(next, Outcome::Yielded);
    let again = scheduler.schedule().unwrap();
    assert_eq!(again.pid, looping);
    assert_eq!(again.reductions, 0);
    assert!(!again.is_reduced());
}

#[test]
fn a_process_that_runs_out_of_code_exits_normally_and_its_heap_is_released() {
    let mut scheduler = Scheduler::new();
    let pid = scheduler.spawn(None, frame(30), 0).unwrap();
    assert_eq!(scheduler.status(pid), Some(Status::Runnable));
    let mut process = scheduler.schedule().unwrap();
    assert!(scheduler.run_queue.is_empty());
    let outcome = loop {
        match process.next_step() {
            Step::Call(called) => {
                assert_eq!(called, frame(30));
                // the code of the frame: allocate, and return
                process.heap.cons(Term::Nil, Term::Nil).unwrap();
                process.pop_frame();
            }
            Step::Yield => break Outcome::Yielded,
            Step::Exit => break Outcome::Exited,
        }
    };
    assert_eq!(outcome, Outcome::Exited);
    assert_eq!(process.reductions, 1);
    scheduler.complete(process, outcome);

    assert_eq!(scheduler.status(pid), Some(Status::Exited(ExitReason::Normal)));
    assert!(scheduler.schedule().is_none());
    let mut exited = scheduler.processes[pid].take().unwrap();
    assert_eq!(exited.heap.capacity(), 0);
    assert_eq!(exited.heap.len(), 0);
    assert_eq!(exited.heap.cons(Term::Nil, Term::Nil), Err(Alloc));
    assert_eq!(exited.heap.tuple_from_slice(&[]), Err(Alloc));
    assert_eq!(exited.stack_push(Term::Nil), Err(Alloc));
    assert!(exited.mailbox.is_empty());
}

#[test]
fn a_process_that_fails_exits_with_the_error() {
    let mut scheduler = Scheduler::new();
    let pid = scheduler.spawn(None, frame(30), 0).unwrap();
    let process = scheduler.schedule().unwrap();
    scheduler.complete(process, Outcome::Failed(Exception::Badarith));
    assert_eq!(
        scheduler.status(pid),
        Some(Status::Exited(ExitReason::Error(Exception::Badarith)))
    );
    // a message for a process that is over is dropped
    let heap = lumen_runtime::heap::Heap::new(0);
    let message = Message::capture(&heap, Term::Nil).unwrap();
    assert!(!scheduler.deliver(pid, message));
    assert_eq!(scheduler.status(pid + 1), None);
}

#[test]
fn a_blocked_process_with_mail_stays_runnable() {
    let mut scheduler = Scheduler::new();
    let pid = scheduler.spawn(None, frame(30), 0).unwrap();
    let mut process = scheduler.schedule().unwrap();
    let message = Message::capture(&process.heap, Term::SmallInteger(1)).unwrap();
    assert!(!process.send(message));
    scheduler.complete(process, Outcome::Blocked);
    assert_eq!(scheduler.status(pid), Some(Status::Runnable));
    let mut process = scheduler.schedule().unwrap();
    assert_eq!(process.receive(&scheduler.atoms), Ok(Some(Term::SmallInteger(1))));
    scheduler.complete(process, Outcome::Blocked);
    assert_eq!(scheduler.status(pid), Some(Status::Waiting));
    assert!(scheduler.schedule().is_none());
}

#[test]
fn the_mailbox_is_first_in_first_out() {
    let mut process = init(0).unwrap();
    let atoms = lumen_runtime::atom::AtomTable::new();
    let source = lumen_runtime::heap::Heap::new(0);
    for n in [1i64, 2, 3] {
        process.send(Message::capture(&source, Term::SmallInteger(n)).unwrap());
    }
    assert_eq!(process.receive(&atoms), Ok(Some(Term::SmallInteger(1))));
    assert_eq!(process.receive(&atoms), Ok(Some(Term::SmallInteger(2))));
    assert_eq!(process.receive(&atoms), Ok(Some(Term::SmallInteger(3))));
    assert_eq!(process.receive(&atoms), Ok(None));
}

#[test]
fn receiving_collects_and_grows_the_heap_when_it_has_to() {
    let atoms = lumen_runtime::atom::AtomTable::new();
    let mut process = Process::new(0, None, frame(0).module_function_arity, 8, 64);
    // six words of garbage and two of stack
    process.heap.tuple_from_slice(&[Term::Nil; 5]).unwrap();
    process.stack_push(Term::SmallInteger(1)).unwrap();
    process.stack_push(Term::SmallInteger(2)).unwrap();
    assert_eq!(process.heap.available(), 0);

    let mut source = lumen_runtime::heap::Heap::new(128);
    let small = source.tuple_from_slice(&[Term::Nil; 3]).unwrap();
    process.send(Message::capture(&source, small).unwrap());
    let large = source.tuple_from_slice(&[Term::Nil; 20]).unwrap();
    process.send(Message::capture(&source, large).unwrap());
    let huge = source.tuple_from_slice(&[Term::Nil; 40]).unwrap();
    process.send(Message::capture(&source, huge).unwrap());

    // the first message fits once the garbage is gone
    let first = process.receive(&atoms).unwrap().unwrap();
    assert_eq!(process.heap.capacity(), 8);
    assert_eq!(process.heap.used(), 4);
    assert_eq!(process.stack, vec![Term::SmallInteger(1), Term::SmallInteger(2)]);
    process.stack_push(first).unwrap();

    // the second needs a larger heap
    let second = process.receive(&atoms).unwrap().unwrap();
    assert!(process.heap.capacity() >= 16);
    assert!(process.heap.capacity() <= 64);
    assert_eq!(process.heap.used(), 4 + 21);
    process.stack_push(second).unwrap();

    // the third does not fit under the limit of the process: it stays in the mailbox
    assert_eq!(process.receive(&atoms), Err(Alloc));
    assert_eq!(process.mailbox.len(), 1);
    assert_eq!(process.stack.len(), 4);
}

#[test]
fn the_dictionary_keeps_what_is_put() {
    let atoms = lumen_runtime::atom::AtomTable::new();
    let mut process = init(0).unwrap();
    let key = process.heap.tuple_from_slice(&[Term::SmallInteger(1)]).unwrap();
    let undefined = Term::Atom(ATOM_UNDEFINED);
    assert_eq!(process.put(&atoms, key, Term::SmallInteger(10)), undefined);
    assert_eq!(process.put(&atoms, key, Term::SmallInteger(11)), Term::SmallInteger(10));
    assert_eq!(process.get_value_from_key(&atoms, key), Term::SmallInteger(11));
    // the dictionary is a root of the collection
    process.garbage_collect();
    let same_key = process.heap.tuple_from_slice(&[Term::SmallInteger(1)]).unwrap();
    assert_eq!(process.get_value_from_key(&atoms, same_key), Term::SmallInteger(11));
    assert_eq!(erase_1::result(&mut process, &atoms, same_key), Term::SmallInteger(11));
    assert_eq!(erase_1::result(&mut process, &atoms, same_key), undefined);
    assert_eq!(process.get_value_from_key(&atoms, same_key), undefined);
    process.garbage_collect();
    assert_eq!(process.heap.used(), 0);
}

#[test]
fn monitors_are_told_of_the_end_of_a_process() {
    use_monitors();
}

fn use_monitors() {
    let mut scheduler = Scheduler::new();
    let watcher = scheduler.spawn(None, frame(40), 0).unwrap();
    let watched = scheduler.spawn(None, frame(41), 0).unwrap();
    let bystander = scheduler.spawn(None, frame(42), 0).unwrap();

    let first = scheduler.monitor(watcher, watched).unwrap();
    let second = scheduler.monitor(bystander, watched).unwrap();
    let third = scheduler.monitor(watcher, watched).unwrap();
    let other = scheduler.monitor(watched, bystander).unwrap();
    let kept = scheduler.monitor(watcher, bystander).unwrap();
    assert_eq!(scheduler.monitor(watcher, 99), None);
    assert!(scheduler.demonitor(second));
    assert!(!scheduler.demonitor(second));
    assert_eq!(scheduler.monitors.len(), 4);

    // the watcher waits; the watched process fails
    let process = scheduler.schedule().unwrap();
    assert_eq!(process.pid, watcher);
    scheduler.complete(process, Outcome::Blocked);
    let process = scheduler.schedule().unwrap();
    assert_eq!(process.pid, watched);
    assert!(!scheduler.notify());
    scheduler.complete(process, Outcome::Failed(Exception::Badarith));
    assert_eq!(scheduler.exits.len(), 1);
    // a process that is over cannot be monitored
    assert_eq!(scheduler.monitor(watcher, watched), None);
    assert_eq!(scheduler.status(watcher), Some(Status::Waiting));

    assert!(scheduler.notify());
    assert!(!scheduler.notify());
    assert_eq!(scheduler.status(watcher), Some(Status::Runnable));
    // the monitors of the process and those on it are gone
    assert_eq!(scheduler.monitors.len(), 1);
    assert_eq!(scheduler.monitors[0].reference, kept);
    assert!(!scheduler.demonitor(other));

    // the bystander runs first: it was runnable all along, and has no message
    let mut process = scheduler.schedule().unwrap();
    assert_eq!(process.pid, bystander);
    assert_eq!(process.receive(&scheduler.atoms), Ok(None));
    scheduler.complete(process, Outcome::Exited);

    let mut process = scheduler.schedule().unwrap();
    assert_eq!(process.pid, watcher);
    for reference in [first, third] {
        let message = process.receive(&scheduler.atoms).unwrap().unwrap();
        assert_eq!(
            process.heap.tuple_elements(message).unwrap(),
            &vec![
                Term::Atom(lumen_runtime::atom::ATOM_DOWN),
                Term::Reference(reference),
                Term::Atom(lumen_runtime::atom::ATOM_PROCESS),
                Term::Pid(watched),
                Term::Atom(lumen_runtime::atom::ATOM_BADARITH),
            ]
        );
    }
    assert_eq!(process.receive(&scheduler.atoms), Ok(None));
    scheduler.complete(process, Outcome::Blocked);
    assert!(scheduler.notify());
    let mut process = scheduler.schedule().unwrap();
    let message = process.receive(&scheduler.atoms).unwrap().unwrap();
    assert_eq!(
        process.heap.tuple_elements(message).unwrap()[4],
        Term::Atom(lumen_runtime::atom::ATOM_NORMAL)
    );
    assert!(scheduler.monitors.is_empty());
}

#[test]
fn an_error_takes_linked_processes_down() {
    let mut scheduler = Scheduler::new();
    let a = scheduler.spawn(None, frame(50), 0).unwrap();
    let b = scheduler.spawn(None, frame(51), 0).unwrap();
    let c = scheduler.spawn(None, frame(52), 0).unwrap();
    let d = scheduler.spawn(None, frame(53), 0).unwrap();
    assert!(scheduler.link(a, b));
    assert!(!scheduler.link(b, a));
    assert!(!scheduler.link(a, a));
    assert!(!scheduler.link(a, 99));
    assert!(scheduler.link(c, b));
    assert!(scheduler.link(a, d));
    assert!(scheduler.unlink(d, a));
    assert!(!scheduler.unlink(d, a));
    assert_eq!(scheduler.find_link(b, c), Some(1));
    let watching = scheduler.monitor(d, c).unwrap();

    let process = scheduler.schedule().unwrap();
    assert_eq!(process.pid, a);
    assert!(!scheduler.propagate());
    scheduler.complete(process, Outcome::Failed(Exception::Badarg));
    assert_eq!(scheduler.run_queue, vec![b, c, d]);

    // the end of a takes b down, the end of b takes c down, and d goes on
    assert!(scheduler.propagate());
    assert_eq!(scheduler.status(b), Some(Status::Exited(ExitReason::Error(Exception::Badarg))));
    assert_eq!(scheduler.status(c), Some(Status::Runnable));
    assert_eq!(scheduler.run_queue, vec![c, d]);
    assert_eq!(scheduler.links, vec![(c, b)]);
    assert!(scheduler.propagate());
    assert_eq!(scheduler.status(c), Some(Status::Exited(ExitReason::Error(Exception::Badarg))));
    assert!(scheduler.links.is_empty());
    assert!(scheduler.propagate());
    assert!(!scheduler.propagate());
    assert_eq!(scheduler.run_queue, vec![d]);
    assert_eq!(scheduler.processes[b].as_ref().unwrap().heap.capacity(), 0);
    assert!(!scheduler.link(d, c));

    // the monitor of c is told
    while scheduler.notify() {}
    let mut process = scheduler.schedule().unwrap();
    assert_eq!(process.pid, d);
    let message = process.receive(&scheduler.atoms).unwrap().unwrap();
    assert_eq!(
        process.heap.tuple_elements(message).unwrap(),
        &vec![
            Term::Atom(lumen_runtime::atom::ATOM_DOWN),
            Term::Reference(watching),
            Term::Atom(lumen_runtime::atom::ATOM_PROCESS),
            Term::Pid(c),
            Term::Atom(lumen_runtime::atom::ATOM_BADARG),
        ]
    );

    // a normal end takes nobody down
    let e = scheduler.spawn(None, frame(54), 0).unwrap();
    assert!(scheduler.link(d, e));
    scheduler.complete(process, Outcome::Exited);
    assert!(scheduler.propagate());
    assert_eq!(scheduler.status(e), Some(Status::Runnable));
    assert!(scheduler.links.is_empty());
    assert!(scheduler.kill(e, ExitReason::Error(Exception::Alloc)));
    assert!(!scheduler.kill(e, ExitReason::Normal));
    assert!(scheduler.run_queue.is_empty());
}
