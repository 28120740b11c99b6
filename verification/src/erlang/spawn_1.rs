//! `spawn/1`: makes a process that runs a function.

use vstd::prelude::*;
use crate::atom::{names_extend, ATOM_UNDEFINED};
use crate::exception::Exception;
use crate::frame::{out_of_code, Frame, ModuleFunctionArity, APPLY_CODE};
use crate::heap::{cell_ok, Heap, Object};
use crate::process::{doubled_to, Status, MAX_HEAP_SIZE, MIN_HEAP_SIZE};
use crate::scheduler::{arguments_words, needed_heap, Scheduler};
use crate::term::Term;

verus! {

/// True if the term is a function that takes no argument.
pub open spec fn accepted(heap: &Heap, function: Term) -> bool {
    heap.value(function) is Function && heap.value(function)->Function_2 == 0
}

/// The module of a function, an atom.
pub open spec fn module_of(heap: &Heap, function: Term) -> usize {
    heap.objects@[function->Boxed_0 as int]->Closure_0.module
}

/// Makes a process that runs `function`, a copy of which is on its operand
/// stack. Returns the identifier of the process, which is at the end of the
/// run queue.
pub fn result(scheduler: &mut Scheduler, heap: &Heap, parent: usize, function: Term) -> (r: Result<
    Term,
    Exception,
>)
    requires
        old(scheduler).wf(),
        heap.wf(),
        heap.contains(function),
        names_extend(old(scheduler).atoms@, heap.names@),
    ensures
        final(scheduler).wf(),
        !accepted(heap, function) ==> r == Err::<Term, Exception>(Exception::Badarg),
        accepted(heap, function) ==> {
            let values = seq![heap.value(function)];
            &&& r is Ok <==> needed_heap(0, values) <= usize::MAX && doubled_to(
                MIN_HEAP_SIZE as nat,
                needed_heap(0, values),
            ) <= MAX_HEAP_SIZE
            &&& r is Err ==> r->Err_0 == Exception::Alloc
        },
        r is Err ==> *final(scheduler) == *old(scheduler),
        r is Ok ==> {
            let values = seq![heap.value(function)];
            let pid = old(scheduler).processes@.len() as usize;
            &&& r->Ok_0 == Term::Pid(pid)
            &&& *final(scheduler) == (Scheduler {
                processes: final(scheduler).processes,
                run_queue: final(scheduler).run_queue,
                ..*old(scheduler)
            })
            &&& final(scheduler).processes@.len() == old(scheduler).processes@.len() + 1
            &&& forall|i: int|
                0 <= i < old(scheduler).processes@.len() ==> #[trigger] final(scheduler).processes@[i] == old(scheduler).processes@[i]
            &&& final(scheduler).run_queue@ == old(scheduler).run_queue@.push(pid)
            &&& final(scheduler).processes@[pid as int] is Some
            &&& ({
                let process = final(scheduler).processes@[pid as int]->Some_0;
                &&& process.pid == pid
                &&& process.parent == Some(parent)
                &&& process.initial == (ModuleFunctionArity {
                    module: module_of(heap, function),
                    function: ATOM_UNDEFINED,
                    arity: 0,
                })
                &&& process.status == Status::Runnable
                &&& process.frames@ == seq![
                    out_of_code(),
                    Frame { module_function_arity: process.initial, code: APPLY_CODE },
                ]
                &&& process.stack_values() == values
                &&& process.mailbox@.len() == 0
                &&& process.heap.used + process.heap.reserved == arguments_words(values)
            })
        },
{
    proof {
        heap.lemma_shape(function);
    }
    let module: usize = match function {
        Term::Boxed(p) => {
            proof {
                assert(cell_ok(heap.objects@, heap.values@, heap.names@, p as int));
            }
            match &heap.objects[p] {
                Object::Closure(closure) => {
                    if closure.arity != 0 {
                        return Err(Exception::Badarg);
                    }
                    closure.module
                },
                _ => {
                    return Err(Exception::Badarg);
                },
            }
        },
        Term::List(p) => {
            proof {
                assert(cell_ok(heap.objects@, heap.values@, heap.names@, p as int));
            }
            return Err(Exception::Badarg);
        },
        _ => {
            return Err(Exception::Badarg);
        },
    };
    let frame = Frame::new(
        ModuleFunctionArity { module, function: ATOM_UNDEFINED, arity: 0 },
        APPLY_CODE,
    );
    let mut arguments: Vec<Term> = Vec::new();
    arguments.push(function);
    proof {
        assert(heap.values_of(arguments@) =~= seq![heap.value(function)]);
        assert(seq![heap.value(function)].reverse() =~= seq![heap.value(function)]);
    }
    let _count: usize = scheduler.processes.len();
    match scheduler.spawn_with_arguments(Some(parent), frame, heap, &arguments, 0) {
        Ok(pid) => Ok(Term::Pid(pid)),
        Err(_) => Err(Exception::Alloc),
    }
}

} // verus!
