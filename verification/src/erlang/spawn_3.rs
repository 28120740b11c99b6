//! `spawn/3`: makes a process that applies a function to arguments.

use vstd::prelude::*;
use crate::atom::names_extend;
use crate::construct::proper_list;
use crate::exception::Exception;
use crate::frame::{out_of_code, Frame, ModuleFunctionArity, APPLY_CODE};
use crate::heap::Heap;
use crate::process::{doubled_to, Status, MAX_HEAP_SIZE, MIN_HEAP_SIZE};
use crate::scheduler::{arguments_words, needed_heap, Scheduler};
use crate::term::Term;

verus! {

/// True if the arguments are acceptable: module and function are atoms, and
/// the arguments are a list of at most 255 terms that ends in the empty
/// list.
pub open spec fn accepted(heap: &Heap, module: Term, function: Term, arguments: Term) -> bool {
    &&& module is Atom
    &&& function is Atom
    &&& proper_list(heap.value(arguments)) is Some
    &&& proper_list(heap.value(arguments))->Some_0.len() <= 255
}

/// Makes a process that applies `module:function` to `arguments`, copies of
/// which are on its operand stack, the first on top. Returns the
/// identifier of the process, which is at the end of the run queue.
pub fn result(
    scheduler: &mut Scheduler,
    heap: &Heap,
    parent: usize,
    module: Term,
    function: Term,
    arguments: Term,
) -> (r: Result<Term, Exception>)
    requires
        old(scheduler).wf(),
        heap.wf(),
        heap.contains(module),
        heap.contains(function),
        heap.contains(arguments),
        names_extend(old(scheduler).atoms@, heap.names@),
    ensures
        final(scheduler).wf(),
        !accepted(heap, module, function, arguments) ==> r == Err::<Term, Exception>(
            Exception::Badarg,
        ),
        accepted(heap, module, function, arguments) ==> {
            let values = proper_list(heap.value(arguments))->Some_0;
            &&& r is Ok <==> needed_heap(0, values) <= usize::MAX && doubled_to(
                MIN_HEAP_SIZE as nat,
                needed_heap(0, values),
            ) <= MAX_HEAP_SIZE
            &&& r is Err ==> r->Err_0 == Exception::Alloc
        },
        r is Err ==> *final(scheduler) == *old(scheduler),
        r is Ok ==> {
            let values = proper_list(heap.value(arguments))->Some_0;
            let pid = old(scheduler).processes@.len() as usize;
            &&& r->Ok_0 == Term::Pid(pid)
            &&& *final(scheduler) == (Scheduler {
                processes: final(scheduler).processes,
                run_queue: final(scheduler).run_queue,
                ..*old(scheduler)
            })
            &&& final(scheduler).processes@.len() == old(scheduler).processes@.len() + 1
            &&& forall|i: int|
                0 <= i < old(scheduler).processes@.len() ==> #[trigger] final(scheduler).processes@[i] == old(scheduler).processes@[i]
            &&& final(scheduler).run_queue@ == old(scheduler).run_queue@.push(pid)
            &&& final(scheduler).processes@[pid as int] is Some
            &&& ({
                let process = final(scheduler).processes@[pid as int]->Some_0;
                &&& process.pid == pid
                &&& process.parent == Some(parent)
                &&& process.initial == (ModuleFunctionArity {
                    module: module->Atom_0,
                    function: function->Atom_0,
                    arity: values.len() as u8,
                })
                &&& process.status == Status::Runnable
                &&& process.frames@ == seq![
                    out_of_code(),
                    Frame { module_function_arity: process.initial, code: APPLY_CODE },
                ]
                &&& process.stack_values() == values.reverse()
                &&& process.mailbox@.len() == 0
                &&& process.heap.used + process.heap.reserved == arguments_words(values)
            })
        },
{
    let (module_atom, function_atom) = match (module, function) {
        (Term::Atom(m), Term::Atom(f)) => (m, f),
        _ => {
            return Err(Exception::Badarg);
        },
    };
    let items = match heap.list_to_vec(arguments) {
        Some(items) => items,
        None => {
            return Err(Exception::Badarg);
        },
    };
    if items.len() > 255 {
        return Err(Exception::Badarg);
    }
    let frame = Frame::new(
        ModuleFunctionArity {
            module: module_atom,
            function: function_atom,
            arity: items.len() as u8,
        },
        APPLY_CODE,
    );
    let _count: usize = scheduler.processes.len();
    match scheduler.spawn_with_arguments(Some(parent), frame, heap, &items, 0) {
        Ok(pid) => Ok(Term::Pid(pid)),
        Err(_) => Err(Exception::Alloc),
    }
}

} // verus!
