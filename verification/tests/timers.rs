use lumen_runtime::atom::{ATOM_CANCEL_TIMER, ATOM_OK, ATOM_TIMEOUT};
use lumen_runtime::term::ATOM_FALSE;
use lumen_runtime::erlang::cancel_timer_2::Options;
use lumen_runtime::erlang::{cancel_timer_1, cancel_timer_2, start_timer_3};
use lumen_runtime::exception::Exception;
use lumen_runtime::frame::{Frame, ModuleFunctionArity};
use lumen_runtime::heap::Object;
use lumen_runtime::process::{Process, Status};
use lumen_runtime::scheduler::{Outcome, Scheduler};
use lumen_runtime::term::Term;

fn with_process<F: FnOnce(&mut Scheduler, &mut Process)>(f: F) {
    let mut scheduler = Scheduler::new();
    let frame = Frame::new(ModuleFunctionArity { module: ATOM_OK, function: ATOM_OK, arity: 0 }, 7);
    scheduler.spawn(None, frame, 0).unwrap();
    let mut process = scheduler.schedule().unwrap();
    f(&mut scheduler, &mut process);
}

fn receive_message(scheduler: &Scheduler, process: &mut Process) -> Option<Vec<Term>> {
    match process.receive(&scheduler.atoms).unwrap() {
        Some(Term::Boxed(p)) => match process.heap.object(p) {
            Object::Tuple(elements) => Some(elements.clone()),
            _ => panic!("the message is a tuple"),
        },
        Some(_) => panic!("the message is a tuple"),
        None => None,
    }
}

fn with_timer<F>(f: F)
where
    F: FnOnce(u64, Term, Term, &mut Scheduler, Process),
{
    with_process(|scheduler, process| {
        let milliseconds: u64 = 100;
        let message = scheduler.atoms.str_to_term("message");
        process.adopt(&scheduler.atoms);
        let timer_reference = start_timer_3::result(
            scheduler,
            &process.heap,
            1000,
            Term::SmallInteger(milliseconds as i64),
            Term::Pid(process.pid),
            message,
        )
        .unwrap();
        let running = std::mem::replace(
            process,
            Process::new(0, None, ModuleFunctionArity { module: 0, function: 0, arity: 0 }, 0, 0),
        );
        f(milliseconds, message, timer_reference, scheduler, running);
    })
}

#[test]
fn without_timer_returns_ok_and_sends_cancel_timer_message() {
    with_process(|scheduler, process| {
        let timer_reference = Term::Reference(scheduler.next_reference().unwrap());

        assert_eq!(
            cancel_timer_2::result(
                scheduler,
                process,
                0,
                timer_reference,
                Options { asynchronous: true, info: true }
            ),
            Ok(Term::Atom(ATOM_OK))
        );
        assert_eq!(
            receive_message(scheduler, process),
            Some(vec![Term::Atom(ATOM_CANCEL_TIMER), timer_reference, Term::from_bool(false)])
        );
    });
}

#[test]
fn without_timeout_returns_milliseconds_remaining_and_does_not_send_timeout_message() {
    with_timer(|milliseconds, _message, timer_reference, scheduler, process| {
        let half_milliseconds = milliseconds / 2;
        scheduler.complete(process, Outcome::Blocked);

        scheduler.timeout(1000 + half_milliseconds + 1);

        let mut process = match scheduler.schedule() {
            Some(_) => panic!("no timeout message was sent, so the process still waits"),
            None => scheduler.processes[0].take().unwrap(),
        };
        assert!(process.mailbox.is_empty());

        let first_result = cancel_timer_2::result(
                scheduler,
                &mut process,
                1000 + half_milliseconds + 1,
                timer_reference,
                Options::new(),
            );

        assert!(first_result.is_ok());

        let milliseconds_remaining = first_result.unwrap();

        assert_eq!(milliseconds_remaining, Term::SmallInteger(half_milliseconds as i64 - 1));

        // again before timeout
        assert_eq!(
            cancel_timer_2::result(
                scheduler,
                &mut process,
                1000 + half_milliseconds + 1,
                timer_reference,
                Options::new(),
            ),
            Ok(Term::from_bool(false))
        );

        scheduler.processes[0] = Some(process);
        scheduler.timeout(1000 + milliseconds + 2);

        let mut process = scheduler.processes[0].take().unwrap();
        assert!(process.mailbox.is_empty());

        // again after timeout
        assert_eq!(
            cancel_timer_2::result(
                scheduler,
                &mut process,
                1000 + milliseconds + 2,
                timer_reference,
                Options::new(),
            ),
            Ok(Term::from_bool(false))
        );
    })
}

#[test]
fn with_timeout_returns_false_after_timeout_message_was_sent() {
    with_timer(|milliseconds, message, timer_reference, scheduler, process| {
        let pid = process.pid;
        scheduler.complete(process, Outcome::Blocked);
        assert_eq!(scheduler.status(pid), Some(Status::Waiting));

        // the deadline has not come
        scheduler.timeout(1000 + milliseconds - 1);
        assert_eq!(scheduler.status(pid), Some(Status::Waiting));
        assert_eq!(scheduler.wheel.timers.len(), 1);

        scheduler.timeout(1000 + milliseconds + 1);

        // the timer woke the process
        assert_eq!(scheduler.status(pid), Some(Status::Runnable));
        assert_eq!(scheduler.wheel.timers.len(), 0);
        let mut process = scheduler.schedule().unwrap();
        assert_eq!(process.mailbox.len(), 1);

        assert_eq!(
            cancel_timer_2::result(
                scheduler,
                &mut process,
                1000 + milliseconds + 1,
                timer_reference,
                Options::new(),
            ),
            Ok(Term::from_bool(false))
        );

        // again
        assert_eq!(
            cancel_timer_2::result(
                scheduler,
                &mut process,
                1000 + milliseconds + 1,
                timer_reference,
                Options::new()
            ),
            Ok(Term::Atom(ATOM_FALSE))
        );

        assert_eq!(
            receive_message(scheduler, &mut process),
            Some(vec![Term::Atom(ATOM_TIMEOUT), timer_reference, message])
        );
        // firing again sends nothing more
        scheduler.complete(process, Outcome::Blocked);
        scheduler.timeout(u64::MAX);
        assert_eq!(scheduler.status(pid), Some(Status::Waiting));
    })
}

#[test]
fn timers_fire_in_the_order_in_which_they_were_started() {
    with_process(|scheduler, process| {
        let pid = Term::Pid(process.pid);
        let late =
            start_timer_3::result(scheduler, &process.heap, 0, Term::SmallInteger(50), pid, Term::Nil)
                .unwrap();
        let early =
            start_timer_3::result(scheduler, &process.heap, 0, Term::SmallInteger(10), pid, Term::Nil)
                .unwrap();
        let never = start_timer_3::result(
            scheduler,
            &process.heap,
            0,
            Term::SmallInteger(i64::MAX),
            pid,
            Term::Nil,
        )
        .unwrap();
        let other =
            start_timer_3::result(scheduler, &process.heap, 0, Term::SmallInteger(20), Term::Pid(9), Term::Nil)
                .unwrap();
        assert_eq!(late, Term::Reference(0));
        assert_eq!(other, Term::Reference(3));
        let running = std::mem::replace(
            process,
            Process::new(0, None, ModuleFunctionArity { module: 0, function: 0, arity: 0 }, 0, 0),
        );
        scheduler.complete(running, Outcome::Yielded);
        scheduler.timeout(60);
        assert_eq!(scheduler.wheel.timers.len(), 1);
        let mut process = scheduler.schedule().unwrap();
        assert_eq!(
            receive_message(scheduler, &mut process),
            Some(vec![Term::Atom(ATOM_TIMEOUT), late, Term::Nil])
        );
        assert_eq!(
            receive_message(scheduler, &mut process),
            Some(vec![Term::Atom(ATOM_TIMEOUT), early, Term::Nil])
        );
        assert_eq!(receive_message(scheduler, &mut process), None);
        // the timer that is still armed is cancelled with its time left
        let left = cancel_timer_2::result(scheduler, &mut process, 60, never, Options::new())
            .unwrap();
        let expected = process.heap.integer(i64::MAX as i128 - 60).unwrap();
        assert_eq!(
            process.heap.compare(&scheduler.atoms, left, expected),
            lumen_runtime::value::Order::Equal
        );
        assert_eq!(
            cancel_timer_2::result(
                scheduler,
                &mut process,
                60,
                never,
                Options { asynchronous: false, info: false }
            ),
            Ok(Term::Atom(ATOM_OK))
        );
    })
}

#[test]
fn timer_arguments_are_checked() {
    with_process(|scheduler, process| {
        let pid = Term::Pid(process.pid);
        let heap = &process.heap;
        assert_eq!(
            start_timer_3::result(scheduler, heap, 0, Term::SmallInteger(-1), pid, Term::Nil),
            Err(Exception::Badarg)
        );
        assert_eq!(
            start_timer_3::result(scheduler, heap, 0, Term::Nil, pid, Term::Nil),
            Err(Exception::Badarg)
        );
        assert_eq!(
            start_timer_3::result(scheduler, heap, 0, Term::SmallInteger(1), Term::Nil, Term::Nil),
            Err(Exception::Badarg)
        );
        assert_eq!(
            cancel_timer_1::result(scheduler, &mut process.heap, 0, Term::Nil),
            Err(Exception::Badarg)
        );
        assert_eq!(
            cancel_timer_2::result(scheduler, process, 0, Term::Pid(0), Options::new()),
            Err(Exception::Badarg)
        );
    })
}

#[test]
fn a_timer_stays_armed_when_the_heap_has_no_room_for_the_time_left() {
    with_process(|scheduler, process| {
        let pid = Term::Pid(process.pid);
        let never = start_timer_3::result(
            scheduler,
            &process.heap,
            0,
            Term::SmallInteger(i64::MAX),
            pid,
            Term::Nil,
        )
        .unwrap();
        // the time left is no small integer and takes two words
        let spare = process.heap.available();
        process.heap.reserve(spare - 1).unwrap();
        assert_eq!(
            cancel_timer_2::result(scheduler, process, 0, never, Options::new()),
            Err(Exception::Alloc)
        );
        assert_eq!(
            cancel_timer_1::result(scheduler, &mut process.heap, 0, never),
            Err(Exception::Alloc)
        );
        assert_eq!(scheduler.wheel.timers.len(), 1);
        // a timer that is not armed needs no room
        assert_eq!(
            cancel_timer_2::result(scheduler, process, 0, Term::Reference(77), Options::new()),
            Ok(Term::Atom(ATOM_FALSE))
        );
        // nor does an outcome that is not returned
        assert_eq!(
            cancel_timer_2::result(
                scheduler,
                process,
                0,
                Term::Reference(77),
                Options { asynchronous: true, info: true }
            ),
            Ok(Term::Atom(ATOM_OK))
        );
        process.heap.release(spare - 1);
        // with room the call succeeds and disarms the timer
        let left = cancel_timer_1::result(scheduler, &mut process.heap, 5, never).unwrap();
        let expected = process.heap.integer(i64::MAX as i128 - 5).unwrap();
        assert_eq!(
            process.heap.compare(&scheduler.atoms, left, expected),
            lumen_runtime::value::Order::Equal
        );
        assert_eq!(scheduler.wheel.timers.len(), 0);
        assert_eq!(
            cancel_timer_1::result(scheduler, &mut process.heap, 5, never),
            Ok(Term::Atom(ATOM_FALSE))
        );
    })
}

#[test]
fn a_full_heap_does_not_stop_a_cancellation_whose_outcome_is_small() {
    with_timer(|milliseconds, _message, timer_reference, scheduler, mut process| {
        let spare = process.heap.available();
        process.heap.reserve(spare).unwrap();
        assert_eq!(process.heap.available(), 0);
        assert_eq!(
            cancel_timer_2::result(scheduler, &mut process, 1040, timer_reference, Options::new()),
            Ok(Term::SmallInteger(milliseconds as i64 - 40))
        );
        assert_eq!(
            cancel_timer_2::result(scheduler, &mut process, 1040, timer_reference, Options::new()),
            Ok(Term::Atom(ATOM_FALSE))
        );
    })
}

#[test]
fn an_asynchronous_cancellation_sends_the_time_that_was_left() {
    with_timer(|milliseconds, _message, timer_reference, scheduler, mut process| {
        let reference = match timer_reference {
            Term::Reference(reference) => reference,
            _ => panic!("a timer is known by a reference"),
        };
        // the timer can be read without being touched
        assert_eq!(scheduler.read_timer(1030, reference), Some(milliseconds - 30));
        assert_eq!(scheduler.read_timer(1030, reference + 1), None);
        assert_eq!(scheduler.wheel.left(5000, reference), Some(0));
        assert_eq!(scheduler.wheel.timers.len(), 1);

        let used = process.heap.used();
        let frames = process.frames.clone();
        assert_eq!(
            cancel_timer_2::result(
                scheduler,
                &mut process,
                1030,
                timer_reference,
                Options { asynchronous: true, info: true }
            ),
            Ok(Term::Atom(ATOM_OK))
        );
        assert_eq!(scheduler.wheel.timers.len(), 0);
        assert_eq!(scheduler.read_timer(1030, reference), None);
        // the caller's heap and call stack are as they were
        assert_eq!(process.heap.used(), used);
        assert_eq!(process.frames, frames);
        assert_eq!(process.status, Status::Running);
        assert_eq!(process.mailbox.len(), 1);
        assert_eq!(
            receive_message(scheduler, &mut process),
            Some(vec![
                Term::Atom(ATOM_CANCEL_TIMER),
                timer_reference,
                Term::SmallInteger(milliseconds as i64 - 30)
            ])
        );
        // without info nothing is sent
        assert_eq!(
            cancel_timer_2::result(
                scheduler,
                &mut process,
                1030,
                timer_reference,
                Options { asynchronous: true, info: false }
            ),
            Ok(Term::Atom(ATOM_OK))
        );
        assert!(process.mailbox.is_empty());
    })
}

#[test]
fn a_cancellation_message_holds_its_outcome_and_nothing_else() {
    let late = lumen_runtime::message::Message::cancelled(7, Some(u64::MAX));
    assert_eq!(late.words(), 6);
    match late.heap.tuple_elements(late.term) {
        Some(elements) => {
            assert_eq!(elements[0], Term::Atom(ATOM_CANCEL_TIMER));
            assert_eq!(elements[1], Term::Reference(7));
            assert_eq!(
                late.heap.integer_digits(elements[2]),
                Some((false, vec![u32::MAX, u32::MAX]))
            );
        }
        None => panic!("the message is a tuple"),
    }
    let gone = lumen_runtime::message::Message::cancelled(8, None);
    assert_eq!(gone.words(), 4);
    assert_eq!(
        gone.heap.tuple_elements(gone.term),
        Some(&vec![Term::Atom(ATOM_CANCEL_TIMER), Term::Reference(8), Term::Atom(ATOM_FALSE)])
    );
}
