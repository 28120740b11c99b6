//! The process: the unit that the scheduler runs.
//!
//! A process owns a heap, an operand stack whose words are set aside in that
//! heap, a call stack of frames, a mailbox, a dictionary, and a count of
//! the reductions it has used since it was last scheduled.

use vstd::prelude::*;
use std::collections::VecDeque;
use crate::atom::{names_extend, AtomTable, ATOM_UNDEFINED};
use crate::exception::Exception;
use crate::frame::{out_of_code, out_of_code_frame, Frame, FrameWithArguments, ModuleFunctionArity, Placement, INIT_CODE, OUT_OF_CODE};
use crate::gc::{reachable, term_points_to, terms_point_to};
use crate::heap::{Alloc, Heap};
use crate::map::{arranged, has_pair, TermMap};
use crate::message::Message;
use crate::term::Term;
use crate::value::Value;

verus! {

/// Reductions that a process may use between two visits to the scheduler.
pub const MAX_REDUCTIONS: u64 = 2000;

/// Words of the smallest heap.
pub const MIN_HEAP_SIZE: usize = 233;

/// Words of the largest heap that a process gets unless it was made with
/// another limit.
pub const MAX_HEAP_SIZE: usize = 67108864;

/// Why a process ended.
#[derive(Clone, Copy, PartialEq, Eq, Structural, Debug)]
pub enum ExitReason {
    /// It ran out of code.
    Normal,
    /// It met an error that nothing caught.
    Error(Exception),
}

/// Where a process is in its life.
#[derive(Clone, Copy, PartialEq, Eq, Structural, Debug)]
pub enum Status {
    /// Waiting for its turn.
    Runnable,
    /// In the hands of the worker that runs it.
    Running,
    /// Waiting for a message or a timer.
    Waiting,
    /// Over.
    Exited(ExitReason),
}

/// What a process does next.
#[derive(Clone, Copy, PartialEq, Eq, Structural, Debug)]
pub enum Step {
    /// Run the native code of this frame, the one on top of the call stack.
    Call(Frame),
    /// Go back to the scheduler: the reductions are used up.
    Yield,
    /// End: the call stack holds no more code.
    Exit,
}

/// A process.
pub struct Process {
    pub pid: usize,
    pub parent: Option<usize>,
    /// The function that the process was made to run.
    pub initial: ModuleFunctionArity,
    pub status: Status,
    pub heap: Heap,
    /// The operand stack; its last term is on top.
    pub stack: Vec<Term>,
    /// The call stack; its last frame is on top.
    pub frames: Vec<Frame>,
    /// The messages that were sent to the process and not received yet, the
    /// oldest first.
    pub mailbox: VecDeque<Message>,
    pub dictionary: TermMap,
    /// Reductions used since the process was last scheduled.
    pub reductions: u64,
    /// Words that the heap may grow to.
    pub max_heap_size: usize,
}

/// The smallest heap size, of those that the heap sizes double through from
/// `candidate` on, that is at least `size`; the largest machine word if
/// doubling passes it.
pub open spec fn doubled_to(candidate: nat, size: nat) -> nat
    decreases usize::MAX - candidate,
{
    if candidate == 0 || candidate >= size {
        candidate
    } else if 2 * candidate > usize::MAX {
        usize::MAX as nat
    } else {
        doubled_to(2 * candidate, size)
    }
}

/// Doubling reaches the size that is asked for, or the largest machine
/// word.
pub proof fn lemma_doubled_to(candidate: nat, size: nat)
    requires
        0 < candidate <= usize::MAX,
        size <= usize::MAX,
    ensures
        size <= doubled_to(candidate, size) <= usize::MAX,
        candidate <= doubled_to(candidate, size),
    decreases usize::MAX - candidate,
{
    if candidate < size && 2 * candidate <= usize::MAX {
        lemma_doubled_to(2 * candidate, size);
    }
}

/// The heap size to give a process that needs `size` words: the smallest of
/// the sizes `MIN_HEAP_SIZE`, twice that, twice that again and so on, that is
/// at least `size`.
pub fn next_heap_size(size: usize) -> (r: usize)
    ensures
        r == doubled_to(MIN_HEAP_SIZE as nat, size as nat),
        r >= size,
        r >= MIN_HEAP_SIZE,
{
    let mut candidate: usize = MIN_HEAP_SIZE;
    proof {
        lemma_doubled_to(MIN_HEAP_SIZE as nat, size as nat);
    }
    while candidate < size
        invariant
            0 < candidate,
            MIN_HEAP_SIZE <= candidate,
            doubled_to(candidate as nat, size as nat) == doubled_to(
                MIN_HEAP_SIZE as nat,
                size as nat,
            ),
        decreases usize::MAX - candidate,
    {
        if candidate > usize::MAX / 2 {
            return usize::MAX;
        }
        candidate = candidate * 2;
    }
    candidate
}

/// The terms left on the operand stack by pushing `arguments`: the first
/// argument ends on top.
pub open spec fn pushed(stack: Seq<Term>, arguments: Seq<Term>) -> Seq<Term> {
    stack + arguments.reverse()
}

/// The operand stack after the arguments of the first `n` frames were
/// pushed, those of the last frame first.
pub open spec fn stack_with_arguments(
    stack: Seq<Term>,
    frames: Seq<FrameWithArguments>,
    n: int,
) -> Seq<Term>
    decreases frames.len() - n,
{
    if n < 0 || n >= frames.len() {
        stack
    } else {
        pushed(stack_with_arguments(stack, frames, n + 1), frames[n].arguments@)
    }
}

/// The call stack after the first `n` frames were pushed, the last frame
/// first.
pub open spec fn frames_with(frames: Seq<Frame>, added: Seq<FrameWithArguments>, n: int) -> Seq<
    Frame,
>
    decreases added.len() - n,
{
    if n < 0 || n >= added.len() {
        frames
    } else {
        frames_with(frames, added, n + 1).push(added[n].frame)
    }
}

/// Number of arguments of the frames from `n` on.
pub open spec fn count_arguments(frames: Seq<FrameWithArguments>, n: int) -> nat
    decreases frames.len() - n,
{
    if n < 0 || n >= frames.len() {
        0
    } else {
        frames[n].arguments@.len() + count_arguments(frames, n + 1)
    }
}

impl Process {
    /// What holds of every process: its heap is well formed, the terms of
    /// its stack and its dictionary are terms of its heap, a word of the
    /// heap is set aside for each term of the stack, the heap is within the
    /// limit of the process, and every message in the mailbox is well
    /// formed.
    pub open spec fn wf(&self) -> bool {
        &&& self.heap.wf()
        &&& self.heap.contains_all(self.stack@)
        &&& self.heap.reserved == self.stack@.len()
        &&& self.dictionary.within(&self.heap)
        &&& self.heap.capacity <= self.max_heap_size
        &&& forall|i: int| 0 <= i < self.mailbox@.len() ==> (#[trigger] self.mailbox@[i]).wf()
    }

    /// True if every atom that the process or a message in its mailbox may
    /// name is an atom of the table.
    pub open spec fn known_to(&self, names: Seq<Seq<u8>>) -> bool {
        &&& names_extend(names, self.heap.names@)
        &&& forall|i: int|
            0 <= i < self.mailbox@.len() ==> names_extend(
                names,
                (#[trigger] self.mailbox@[i]).heap.names@,
            )
    }

    /// The operand stack by value, the top last.
    pub open spec fn stack_values(&self) -> Seq<Value> {
        self.heap.values_of(self.stack@)
    }

    /// The mailbox by value, the oldest message first.
    pub open spec fn mailbox_values(&self) -> Seq<Value> {
        Seq::new(self.mailbox@.len(), |i: int| self.mailbox@[i].value())
    }

    /// The dictionary as a mapping.
    pub open spec fn dictionary_mapping(&self) -> Map<Value, Value> {
        self.dictionary.mapping(&self.heap)
    }

    /// The roots of a collection: the operand stack and the keys and values
    /// of the dictionary.
    pub open spec fn roots(&self) -> Seq<Term> {
        self.stack@ + self.dictionary.keys@ + self.dictionary.values@
    }

    /// True if `self` is `earlier` but for its heap, and every term of the
    /// stack and the dictionary means what it meant.
    pub open spec fn same_but_heap(&self, earlier: &Process) -> bool {
        &&& self.pid == earlier.pid
        &&& self.parent == earlier.parent
        &&& self.initial == earlier.initial
        &&& self.status == earlier.status
        &&& self.frames == earlier.frames
        &&& self.mailbox == earlier.mailbox
        &&& self.reductions == earlier.reductions
        &&& self.max_heap_size == earlier.max_heap_size
        &&& self.stack@.len() == earlier.stack@.len()
        &&& self.stack_values() == earlier.stack_values()
        &&& self.dictionary.key_values(&self.heap) == earlier.dictionary.key_values(&earlier.heap)
        &&& self.dictionary.value_values(&self.heap) == earlier.dictionary.value_values(
            &earlier.heap,
        )
        &&& self.heap.names@ == earlier.heap.names@
    }

    /// A process that has nothing to run yet.
    pub fn new(
        pid: usize,
        parent: Option<usize>,
        initial: ModuleFunctionArity,
        heap_size: usize,
        max_heap_size: usize,
    ) -> (r: Process)
        requires
            heap_size <= max_heap_size,
        ensures
            r.wf(),
            r.pid == pid,
            r.parent == parent,
            r.initial == initial,
            r.status == Status::Waiting,
            r.heap.capacity == heap_size,
            r.heap.used == 0,
            r.heap.names@ == crate::atom::predefined_names(),
            r.max_heap_size == max_heap_size,
            r.stack@.len() == 0,
            r.frames@.len() == 0,
            r.mailbox@.len() == 0,
            r.dictionary.keys@.len() == 0,
            r.reductions == 0,
    {
        Process {
            pid,
            parent,
            initial,
            status: Status::Waiting,
            heap: Heap::new(heap_size),
            stack: Vec::new(),
            frames: Vec::new(),
            mailbox: VecDeque::new(),
            dictionary: TermMap::new(),
            reductions: 0,
            max_heap_size,
        }
    }

    /// Lets the process hold the atoms that have been added to the table
    /// since it last saw it.
    pub fn adopt(&mut self, atoms: &AtomTable)
        requires
            old(self).wf(),
            atoms.wf(),
            names_extend(atoms@, old(self).heap.names@),
        ensures
            final(self).wf(),
            final(self).heap.names@ == atoms@,
            final(self).heap.objects == old(self).heap.objects,
            final(self).heap.values == old(self).heap.values,
            final(self).heap.used == old(self).heap.used,
            final(self).heap.reserved == old(self).heap.reserved,
            final(self).heap.capacity == old(self).heap.capacity,
            final(self).stack == old(self).stack,
            final(self).dictionary == old(self).dictionary,
            final(self).stack_values() == old(self).stack_values(),
            final(self).dictionary.key_values(&final(self).heap) == old(self).dictionary.key_values(
                &old(self).heap,
            ),
            final(self).dictionary.value_values(&final(self).heap) == old(
                self,
            ).dictionary.value_values(&old(self).heap),
            final(self).pid == old(self).pid,
            final(self).parent == old(self).parent,
            final(self).initial == old(self).initial,
            final(self).status == old(self).status,
            final(self).frames == old(self).frames,
            final(self).mailbox == old(self).mailbox,
            final(self).reductions == old(self).reductions,
            final(self).max_heap_size == old(self).max_heap_size,
            forall|t: Term|
                old(self).heap.contains(t) ==> final(self).heap.contains(t) && final(self).heap.value(t) == old(self).heap.value(t),
    {
        self.heap.adopt(atoms);
        proof {
            assert(self.stack_values() =~= old(self).stack_values()) by {
                assert forall|i: int| 0 <= i < self.stack@.len() implies self.heap.value(
                    self.stack@[i],
                ) == old(self).heap.value(self.stack@[i]) by {
                    assert(old(self).heap.contains(old(self).stack@[i]));
                }
            }
            assert(self.dictionary.key_values(&self.heap) =~= old(self).dictionary.key_values(
                &old(self).heap,
            )) by {
                assert forall|i: int| 0 <= i < self.dictionary.keys@.len() implies self.heap.value(
                    self.dictionary.keys@[i],
                ) == old(self).heap.value(self.dictionary.keys@[i]) by {
                    assert(old(self).heap.contains(old(self).dictionary.keys@[i]));
                }
            }
            assert(self.dictionary.value_values(&self.heap) =~= old(self).dictionary.value_values(
                &old(self).heap,
            )) by {
                assert forall|i: int|
                    0 <= i < self.dictionary.values@.len() implies self.heap.value(
                    self.dictionary.values@[i],
                ) == old(self).heap.value(self.dictionary.values@[i]) by {
                    assert(old(self).heap.contains(old(self).dictionary.values@[i]));
                }
            }
            assert forall|i: int| 0 <= i < self.stack@.len() implies self.heap.contains(
                #[trigger] self.stack@[i],
            ) by {
                assert(old(self).heap.contains(old(self).stack@[i]));
            }
            assert forall|i: int| 0 <= i < self.dictionary.keys@.len() implies self.heap.contains(
                #[trigger] self.dictionary.keys@[i],
            ) by {
                assert(old(self).heap.contains(old(self).dictionary.keys@[i]));
            }
            assert forall|i: int|
                0 <= i < self.dictionary.values@.len() implies self.heap.contains(
                #[trigger] self.dictionary.values@[i],
            ) by {
                assert(old(self).heap.contains(old(self).dictionary.values@[i]));
            }
        }
    }
}

impl Process {
    /// Pushes a term on the operand stack, if the heap has a word for it.
    pub fn stack_push(&mut self, term: Term) -> (r: Result<(), Alloc>)
        requires
            old(self).wf(),
            old(self).heap.contains(term),
        ensures
            final(self).wf(),
            r is Ok <==> 1 <= old(self).heap.spare(),
            r is Ok ==> *final(self) == (Process {
                stack: final(self).stack,
                heap: final(self).heap,
                ..*old(self)
            }) && final(self).stack@ == old(self).stack@.push(term) && final(self).heap == (Heap {
                reserved: (old(self).heap.reserved + 1) as usize,
                ..old(self).heap
            }),
            r is Err ==> *final(self) == *old(self),
    {
        match self.heap.reserve(1) {
            Ok(()) => {
                self.stack.push(term);
                proof {
                    assert forall|i: int| 0 <= i < self.stack@.len() implies self.heap.contains(
                        #[trigger] self.stack@[i],
                    ) by {
                        if i < old(self).stack@.len() {
                            assert(old(self).heap.contains(old(self).stack@[i]));
                        }
                    }
                }
                Ok(())
            },
            Err(e) => Err(e),
        }
    }

    /// Pushes terms on the operand stack, the last one first, so that the
    /// first one ends on top; or none of them, if the heap has not a word for
    /// each.
    pub fn stack_push_slice(&mut self, terms: &[Term]) -> (r: Result<(), Alloc>)
        requires
            old(self).wf(),
            old(self).heap.contains_all(terms@),
        ensures
            final(self).wf(),
            r is Ok <==> terms@.len() <= old(self).heap.spare(),
            r is Ok ==> *final(self) == (Process {
                stack: final(self).stack,
                heap: final(self).heap,
                ..*old(self)
            }) && final(self).stack@ == pushed(old(self).stack@, terms@) && final(self).heap == (
            Heap { reserved: (old(self).heap.reserved + terms@.len()) as usize, ..old(self).heap }),
            r is Err ==> *final(self) == *old(self),
    {
        let n: usize = terms.len();
        match self.heap.reserve(n) {
            Ok(()) => {
                let mut i: usize = n;
                while i > 0
                    invariant
                        0 <= i <= n,
                        n == terms@.len(),
                        self.stack@ == old(self).stack@ + terms@.subrange(i as int, n as int).reverse(),
                        *self == (Process { stack: self.stack, heap: self.heap, ..*old(self) }),
                        self.heap == (Heap {
                            reserved: (old(self).heap.reserved + n) as usize,
                            ..old(self).heap
                        }),
                    decreases i,
                {
                    i -= 1;
                    self.stack.push(terms[i]);
                    proof {
                        let done = terms@.subrange(i + 1, n as int);
                        let more = terms@.subrange(i as int, n as int);
                        assert(more.reverse() =~= done.reverse().push(terms@[i as int]));
                        assert(self.stack@ =~= old(self).stack@ + more.reverse());
                    }
                }
                proof {
                    assert(terms@.subrange(0, n as int) =~= terms@);
                    assert forall|k: int| 0 <= k < self.stack@.len() implies self.heap.contains(
                        #[trigger] self.stack@[k],
                    ) by {
                        if k < old(self).stack@.len() {
                            assert(old(self).heap.contains(old(self).stack@[k]));
                        } else {
                            let j = k - old(self).stack@.len();
                            assert(self.stack@[k] == terms@[n - 1 - j]);
                            assert(old(self).heap.contains(terms@[n - 1 - j]));
                        }
                    }
                }
                Ok(())
            },
            Err(e) => Err(e),
        }
    }

    /// Takes the term on top of the operand stack, if there is one.
    pub fn stack_pop(&mut self) -> (r: Option<Term>)
        requires
            old(self).wf(),
        ensures
            final(self).wf(),
            r is Some <==> old(self).stack@.len() > 0,
            r is Some ==> r->Some_0 == old(self).stack@.last() && final(self).heap.contains(
                r->Some_0,
            ) && *final(self) == (Process {
                stack: final(self).stack,
                heap: final(self).heap,
                ..*old(self)
            }) && final(self).stack@ == old(self).stack@.drop_last() && final(self).heap == (Heap {
                reserved: (old(self).heap.reserved - 1) as usize,
                ..old(self).heap
            }),
            r is None ==> *final(self) == *old(self),
    {
        if self.stack.len() == 0 {
            return None;
        }
        let top = self.stack.pop();
        self.heap.release(1);
        proof {
            assert(old(self).heap.contains(old(self).stack@[old(self).stack@.len() - 1]));
            assert forall|i: int| 0 <= i < self.stack@.len() implies self.heap.contains(
                #[trigger] self.stack@[i],
            ) by {
                assert(old(self).heap.contains(old(self).stack@[i]));
            }
        }
        top
    }

    /// The frame on top of the call stack, if there is one.
    pub fn current_frame(&self) -> (r: Option<Frame>)
        ensures
            r == (if self.frames@.len() > 0 {
                Some(self.frames@.last())
            } else {
                None
            }),
    {
        if self.frames.len() == 0 {
            None
        } else {
            Some(self.frames[self.frames.len() - 1])
        }
    }

    /// Takes the frame on top of the call stack, if there is one: the frame
    /// has returned.
    pub fn pop_frame(&mut self) -> (r: Option<Frame>)
        ensures
            r == (if old(self).frames@.len() > 0 {
                Some(old(self).frames@.last())
            } else {
                None
            }),
            *final(self) == (Process { frames: final(self).frames, ..*old(self) }),
            final(self).frames@ == (if old(self).frames@.len() > 0 {
                old(self).frames@.drop_last()
            } else {
                old(self).frames@
            }),
    {
        self.frames.pop()
    }

    /// Places a frame on the call stack: on top of the frame on top, or in
    /// its place.
    pub fn place_frame(&mut self, frame: Frame, placement: Placement)
        ensures
            *final(self) == (Process { frames: final(self).frames, ..*old(self) }),
            final(self).frames@ == (match placement {
                Placement::Push => old(self).frames@.push(frame),
                Placement::Replace => if old(self).frames@.len() > 0 {
                    old(self).frames@.drop_last().push(frame)
                } else {
                    old(self).frames@.push(frame)
                },
            }),
    {
        match placement {
            Placement::Replace => {
                let _replaced = self.frames.pop();
            },
            Placement::Push => {},
        }
        self.frames.push(frame);
    }

    /// Counts one reduction.
    pub fn reduce(&mut self)
        ensures
            *final(self) == (Process { reductions: final(self).reductions, ..*old(self) }),
            final(self).reductions == (if old(self).reductions < u64::MAX {
                old(self).reductions + 1
            } else {
                old(self).reductions as int
            }),
    {
        if self.reductions < u64::MAX {
            self.reductions = self.reductions + 1;
        }
    }

    /// True if the process has used up its reductions and has to go back to
    /// the scheduler.
    pub fn is_reduced(&self) -> (r: bool)
        ensures
            r == (self.reductions >= MAX_REDUCTIONS),
    {
        self.reductions >= MAX_REDUCTIONS
    }

    /// What the process does next. A process that has used up its reductions
    /// yields, whatever is on its call stack. One whose call stack is empty
    /// or has the out-of-code frame on top ends. Any other runs the frame on
    /// top, which costs a reduction.
    pub fn next_step(&mut self) -> (r: Step)
        ensures
            r == decided(old(self).reductions, old(self).frames@),
            *final(self) == (Process { reductions: final(self).reductions, ..*old(self) }),
            final(self).reductions == (if r is Call {
                old(self).reductions + 1
            } else {
                old(self).reductions as int
            }),
    {
        if self.is_reduced() {
            return Step::Yield;
        }
        match self.current_frame() {
            None => Step::Exit,
            Some(frame) => {
                if frame.is_out_of_code() {
                    Step::Exit
                } else {
                    self.reductions = self.reductions + 1;
                    Step::Call(frame)
                }
            },
        }
    }

    /// Puts a message at the end of the mailbox. Returns true if the process
    /// was waiting: it is runnable now.
    pub fn send(&mut self, message: Message) -> (r: bool)
        requires
            old(self).wf(),
            message.wf(),
        ensures
            final(self).wf(),
            r == (old(self).status == Status::Waiting),
            *final(self) == (Process {
                mailbox: final(self).mailbox,
                status: final(self).status,
                ..*old(self)
            }),
            final(self).mailbox@ == old(self).mailbox@.push(message),
            final(self).mailbox_values() == old(self).mailbox_values().push(message.value()),
            final(self).status == (if old(self).status == Status::Waiting {
                Status::Runnable
            } else {
                old(self).status
            }),
    {
        self.mailbox.push_back(message);
        proof {
            assert(self.mailbox_values() =~= old(self).mailbox_values().push(message.value()));
            assert forall|i: int| 0 <= i < self.mailbox@.len() implies (
            #[trigger] self.mailbox@[i]).wf() by {
                if i < old(self).mailbox@.len() {
                    assert(old(self).mailbox@[i].wf());
                }
            }
        }
        match self.status {
            Status::Waiting => {
                self.status = Status::Runnable;
                true
            },
            _ => false,
        }
    }

    /// Ends the process: its heap is released, and with it its stacks, its
    /// mailbox and its dictionary. Nothing can be allocated on the heap
    /// afterwards.
    pub fn exit(&mut self, reason: ExitReason)
        ensures
            final(self).wf(),
            final(self).status == Status::Exited(reason),
            final(self).pid == old(self).pid,
            final(self).parent == old(self).parent,
            final(self).initial == old(self).initial,
            final(self).max_heap_size == old(self).max_heap_size,
            final(self).reductions == old(self).reductions,
            final(self).heap.capacity == 0,
            final(self).heap.used == 0,
            final(self).heap.objects@.len() == 0,
            final(self).heap.names@ == crate::atom::predefined_names(),
            final(self).stack@.len() == 0,
            final(self).frames@.len() == 0,
            final(self).mailbox@.len() == 0,
            final(self).dictionary.keys@.len() == 0,
    {
        self.status = Status::Exited(reason);
        self.heap = Heap::new(0);
        self.stack = Vec::new();
        self.frames = Vec::new();
        self.mailbox = VecDeque::new();
        self.dictionary = TermMap::new();
    }
}

/// What can be reached from some roots can be reached from any roots that
/// hold a pointer wherever those do.
pub proof fn lemma_reachable_from_more(
    objects: Seq<crate::heap::Object>,
    roots: Seq<Term>,
    more: Seq<Term>,
    p: int,
)
    requires
        reachable(objects, roots, p),
        forall|c: int| terms_point_to(roots, c) ==> #[trigger] terms_point_to(more, c),
    ensures
        reachable(objects, more, p),
{
    let path = choose|path: Seq<int>| #[trigger]
        crate::gc::is_path(objects, roots, path) && path.last() == p;
    assert(terms_point_to(more, path[0]));
    assert(crate::gc::is_path(objects, more, path));
}

impl Process {
    /// Collects the heap. The operand stack and the dictionary are the
    /// roots: what they reach is kept, by value, and nothing else is.
    #[verifier::rlimit(60)]
    #[verifier::spinoff_prover]
    pub fn garbage_collect(&mut self)
        requires
            old(self).wf(),
        ensures
            final(self).wf(),
            final(self).same_but_heap(old(self)),
            final(self).heap.used <= old(self).heap.used,
            final(self).heap.capacity == old(self).heap.capacity,
            final(self).heap.reserved == old(self).heap.reserved,
            forall|p: int|
                0 <= p < final(self).heap.objects@.len() ==> #[trigger] reachable(
                    final(self).heap.objects@,
                    final(self).roots(),
                    p,
                ),
    {
        proof {
            self.dictionary.lemma_distinct_keys(&self.heap);
        }
        let (entry_keys, entry_values) = self.dictionary.entry_terms();
        let s: usize = self.stack.len();
        let n: usize = entry_keys.len();
        let ghost stack = self.stack@;
        let ghost ek = entry_keys@;
        let ghost ev = entry_values@;
        let mut roots: Vec<Term> = Vec::new();
        let mut i: usize = 0;
        while i < s
            invariant
                0 <= i <= s,
                s == self.stack@.len(),
                roots@ == self.stack@.subrange(0, i as int),
            decreases s - i,
        {
            roots.push(self.stack[i]);
            proof {
                assert(roots@ =~= self.stack@.subrange(0, i + 1));
            }
            i += 1;
        }
        proof {
            assert(self.stack@.subrange(0, s as int) =~= self.stack@);
            assert(roots@ =~= stack + entry_keys@.subrange(0, 0));
        }
        let mut j: usize = 0;
        while j < n
            invariant
                0 <= j <= n,
                n == entry_keys@.len(),
                roots@ == stack + entry_keys@.subrange(0, j as int),
            decreases n - j,
        {
            roots.push(entry_keys[j]);
            proof {
                assert(roots@ =~= stack + entry_keys@.subrange(0, j + 1));
            }
            j += 1;
        }
        proof {
            assert(entry_keys@.subrange(0, n as int) =~= entry_keys@);
            assert(roots@ =~= stack + entry_keys@ + entry_values@.subrange(0, 0));
        }
        let mut k: usize = 0;
        while k < n
            invariant
                0 <= k <= n,
                n == entry_keys@.len(),
                n == entry_values@.len(),
                roots@ == stack + entry_keys@ + entry_values@.subrange(0, k as int),
            decreases n - k,
        {
            roots.push(entry_values[k]);
            proof {
                assert(roots@ =~= stack + entry_keys@ + entry_values@.subrange(0, k + 1));
            }
            k += 1;
        }
        proof {
            assert(entry_values@.subrange(0, n as int) =~= entry_values@);
            assert(self.stack@.subrange(0, s as int) =~= self.stack@);
            assert(roots@ =~= stack + ek + ev);
            assert forall|x: int| 0 <= x < roots@.len() implies self.heap.contains(
                #[trigger] roots@[x],
            ) by {
                if x < s {
                    assert(self.heap.contains(self.stack@[x]));
                } else {
                    let y = if x < s + n {
                        x - s
                    } else {
                        x - s - n
                    };
                    assert(has_pair(self.dictionary.keys@, self.dictionary.values@, ek[y], ev[y]));
                    let q = choose|q: int|
                        0 <= q < self.dictionary.keys@.len() && 0 <= q
                            < self.dictionary.values@.len() && #[trigger] self.dictionary.keys@[q]
                            == ek[y] && self.dictionary.values@[q] == ev[y];
                    assert(self.heap.contains(self.dictionary.keys@[q]));
                    assert(self.heap.contains(self.dictionary.values@[q]));
                }
            }
        }
        let moved = self.heap.collect(&roots);
        let ghost old_values = old(self).heap.values_of(roots@);
        let ghost new_values = self.heap.values_of(moved@);
        let mut new_stack: Vec<Term> = Vec::new();
        let mut new_keys: Vec<Term> = Vec::new();
        let mut new_entry_values: Vec<Term> = Vec::new();
        let total: usize = moved.len();
        let mut x: usize = 0;
        while x < s
            invariant
                0 <= x <= s,
                s + n + n == total,
                total == moved@.len(),
                new_stack@ == moved@.subrange(0, x as int),
            decreases s - x,
        {
            new_stack.push(moved[x]);
            proof {
                assert(new_stack@ =~= moved@.subrange(0, x + 1));
            }
            x += 1;
        }
        let mut y: usize = 0;
        while y < n
            invariant
                0 <= y <= n,
                s + n + n == total,
                total == moved@.len(),
                new_keys@ == moved@.subrange(s as int, s + y),
                new_entry_values@ == moved@.subrange(s + n, s + n + y),
            decreases n - y,
        {
            new_keys.push(moved[s + y]);
            new_entry_values.push(moved[s + n + y]);
            proof {
                assert(new_keys@ =~= moved@.subrange(s as int, s + y + 1));
                assert(new_entry_values@ =~= moved@.subrange(s + n, s + n + y + 1));
            }
            y += 1;
        }
        proof {
            assert forall|q: int| 0 <= q < s implies self.heap.contains(#[trigger] new_stack@[q])
                && self.heap.value(new_stack@[q]) == old(self).heap.value(stack[q]) by {
                assert(self.heap.contains(moved@[q]));
                assert(new_values[q] == old_values[q]);
            }
            assert forall|q: int| 0 <= q < n implies self.heap.contains(#[trigger] new_keys@[q])
                && self.heap.value(new_keys@[q]) == old(self).heap.value(ek[q]) by {
                assert(self.heap.contains(moved@[s + q]));
                assert(new_values[s + q] == old_values[s + q]);
            }
            assert forall|q: int| 0 <= q < n implies self.heap.contains(
                #[trigger] new_entry_values@[q],
            ) && self.heap.value(new_entry_values@[q]) == old(self).heap.value(ev[q]) by {
                assert(self.heap.contains(moved@[s + n + q]));
                assert(new_values[s + n + q] == old_values[s + n + q]);
            }
            assert(self.heap.values_of(new_stack@) =~= old(self).heap.values_of(stack));
            assert(self.heap.values_of(new_keys@) =~= old(self).heap.values_of(ek));
            assert(self.heap.values_of(new_entry_values@) =~= old(self).heap.values_of(ev));
        }
        let dictionary = self.dictionary.transplant(
            Ghost(&old(self).heap),
            Ghost(&self.heap),
            Ghost(ek),
            Ghost(ev),
            &new_keys,
            &new_entry_values,
        );
        self.stack = new_stack;
        self.dictionary = dictionary;
        proof {
            let more = self.roots();
            assert forall|c: int| terms_point_to(moved@, c) implies #[trigger] terms_point_to(
                more,
                c,
            ) by {
                let q = choose|q: int| 0 <= q < moved@.len() && term_points_to(#[trigger] moved@[q], c);
                if q < s {
                    assert(more[q] == moved@[q]);
                } else {
                    let z = if q < s + n {
                        q - s
                    } else {
                        q - s - n
                    };
                    assert(has_pair(
                        self.dictionary.keys@,
                        self.dictionary.values@,
                        new_keys@[z],
                        new_entry_values@[z],
                    ));
                    let w = choose|w: int|
                        0 <= w < self.dictionary.keys@.len() && 0 <= w
                            < self.dictionary.values@.len() && #[trigger] self.dictionary.keys@[w]
                            == new_keys@[z] && self.dictionary.values@[w] == new_entry_values@[z];
                    if q < s + n {
                        assert(more[s + w] == moved@[q]);
                    } else {
                        assert(more[s + n + w] == moved@[q]);
                    }
                }
            }
            assert forall|p: int| 0 <= p < self.heap.objects@.len() implies #[trigger] reachable(
                self.heap.objects@,
                more,
                p,
            ) by {
                lemma_reachable_from_more(self.heap.objects@, moved@, more, p);
            }
        }
    }

    /// Makes room on the heap for `need` words: by nothing if they are free,
    /// else by a collection, and if that does not free them, by a heap of at
    /// least twice the size, as far as the limit of the process allows.
    pub fn ensure_room(&mut self, need: usize) -> (r: Result<(), Alloc>)
        requires
            old(self).wf(),
        ensures
            final(self).wf(),
            final(self).same_but_heap(old(self)),
            r is Ok <==> final(self).heap.used + final(self).heap.reserved + need <= final(self).max_heap_size,
            r is Ok ==> need <= final(self).heap.spare(),
            need <= old(self).heap.spare() ==> *final(self) == *old(self),
            final(self).heap.used <= old(self).heap.used,
            final(self).heap.capacity >= old(self).heap.capacity,
            final(self).heap.reserved == old(self).heap.reserved,
            need > old(self).heap.spare() ==> forall|p: int|
                0 <= p < final(self).heap.objects@.len() ==> #[trigger] reachable(
                    final(self).heap.objects@,
                    final(self).roots(),
                    p,
                ),
            final(self).heap.capacity > old(self).heap.capacity ==> final(self).heap.capacity >= 2
                * old(self).heap.capacity || final(self).heap.capacity == final(self).max_heap_size,
    {
        if need <= self.heap.available() {
            return Ok(());
        }
        self.garbage_collect();
        if need <= self.heap.available() {
            return Ok(());
        }
        let taken: usize = self.heap.used + self.heap.reserved;
        if need > self.max_heap_size - taken {
            return Err(Alloc);
        }
        let required: usize = taken + need;
        let doubled: usize = if self.heap.capacity > usize::MAX / 2 {
            usize::MAX
        } else {
            2 * self.heap.capacity
        };
        let wanted: usize = if required > doubled {
            required
        } else {
            doubled
        };
        let size: usize = next_heap_size(wanted);
        let capacity: usize = if size > self.max_heap_size {
            self.max_heap_size
        } else {
            size
        };
        let ghost before = *self;
        self.heap.grow(capacity);
        proof {
            assert(self.stack_values() =~= before.stack_values());
            assert(self.dictionary.key_values(&self.heap) =~= before.dictionary.key_values(
                &before.heap,
            ));
            assert(self.dictionary.value_values(&self.heap) =~= before.dictionary.value_values(
                &before.heap,
            ));
            assert(self.roots() == before.roots());
        }
        Ok(())
    }

    /// Takes the oldest message out of the mailbox and copies it to the
    /// heap, making room for it first if there is none. Returns the message
    /// as a term of the heap, or nothing if the mailbox is empty. If no room
    /// can be made, the message stays where it is.
    pub fn receive(&mut self, atoms: &AtomTable) -> (r: Result<Option<Term>, Alloc>)
        requires
            old(self).wf(),
            atoms.wf(),
            old(self).known_to(atoms@),
        ensures
            final(self).wf(),
            final(self).known_to(atoms@),
            final(self).pid == old(self).pid,
            final(self).parent == old(self).parent,
            final(self).initial == old(self).initial,
            final(self).status == old(self).status,
            final(self).frames == old(self).frames,
            final(self).reductions == old(self).reductions,
            final(self).max_heap_size == old(self).max_heap_size,
            final(self).stack_values() == old(self).stack_values(),
            final(self).dictionary_mapping() == old(self).dictionary_mapping(),
            old(self).mailbox@.len() == 0 ==> r == Ok::<Option<Term>, Alloc>(None) && final(self).mailbox@.len() == 0,
            old(self).mailbox@.len() > 0 && old(self).heap.used + old(self).heap.reserved
                + crate::copy::value_words(old(self).mailbox_values()[0]) <= old(
                self,
            ).max_heap_size ==> r is Ok,
            old(self).mailbox@.len() > 0 && r is Ok ==> {
                &&& r->Ok_0 is Some
                &&& final(self).heap.contains(r->Ok_0->Some_0)
                &&& final(self).heap.value(r->Ok_0->Some_0) == old(self).mailbox_values()[0]
                &&& final(self).mailbox@ == old(self).mailbox@.drop_first()
                &&& final(self).mailbox_values() == old(self).mailbox_values().drop_first()
            },
            r is Err ==> final(self).mailbox == old(self).mailbox && final(self).heap.used + final(self).heap.reserved + crate::copy::value_words(old(self).mailbox_values()[0]) > final(self).max_heap_size,
            r is Err ==> forall|p: int|
                0 <= p < final(self).heap.objects@.len() ==> #[trigger] reachable(
                    final(self).heap.objects@,
                    final(self).roots(),
                    p,
                ),
    {
        self.adopt(atoms);
        if self.mailbox.len() == 0 {
            return Ok(None);
        }
        let ghost adopted = *self;
        proof {
            assert(self.mailbox@[0].wf());
        }
        let need: usize = self.mailbox[0].words();
        match self.ensure_room(need) {
            Err(e) => {
                return Err(e);
            },
            Ok(()) => {},
        }
        let ghost roomy = *self;
        let message = match self.mailbox.pop_front() {
            Some(message) => message,
            None => {
                return Ok(None);
            },
        };
        proof {
            assert(message == old(self).mailbox@[0]);
            assert(names_extend(atoms@, message.heap.names@));
        }
        let copied = self.heap.copy_from(&message.heap, message.term);
        proof {
            assert(copied is Ok);
            assert forall|i: int| 0 <= i < self.stack@.len() implies self.heap.contains(
                #[trigger] self.stack@[i],
            ) && self.heap.value(self.stack@[i]) == roomy.heap.value(self.stack@[i]) by {
                assert(roomy.heap.contains(roomy.stack@[i]));
                self.heap.lemma_extends(&roomy.heap, self.stack@[i]);
            }
            self.heap.lemma_extends_all(&roomy.heap, self.dictionary.keys@);
            self.heap.lemma_extends_all(&roomy.heap, self.dictionary.values@);
            assert(self.stack_values() =~= roomy.stack_values());
            assert(self.mailbox_values() =~= old(self).mailbox_values().drop_first());
            assert forall|i: int| 0 <= i < self.mailbox@.len() implies (
            #[trigger] self.mailbox@[i]).wf() && names_extend(atoms@, self.mailbox@[i].heap.names@) by {
                assert(old(self).mailbox@[i + 1].wf());
            }
        }
        match copied {
            Ok(term) => Ok(Some(term)),
            Err(e) => Err(e),
        }
    }
}

impl Process {
    /// Puts `value` under `key` in the dictionary. Returns what was under the
    /// key, or the atom `undefined` if nothing was.
    pub fn put(&mut self, atoms: &AtomTable, key: Term, value: Term) -> (r: Term)
        requires
            old(self).wf(),
            old(self).heap.contains(key),
            old(self).heap.contains(value),
            names_extend(atoms@, old(self).heap.names@),
        ensures
            final(self).wf(),
            *final(self) == (Process { dictionary: final(self).dictionary, ..*old(self) }),
            final(self).dictionary_mapping() == old(self).dictionary_mapping().insert(
                old(self).heap.value(key),
                old(self).heap.value(value),
            ),
            final(self).heap.contains(r),
            r == Term::Atom(ATOM_UNDEFINED) || old(self).dictionary_mapping().contains_key(
                old(self).heap.value(key),
            ),
            old(self).dictionary_mapping().contains_key(old(self).heap.value(key))
                ==> final(self).heap.value(r) == old(self).dictionary_mapping()[old(
                self,
            ).heap.value(key)],
            !old(self).dictionary_mapping().contains_key(old(self).heap.value(key)) ==> r
                == Term::Atom(ATOM_UNDEFINED),
    {
        let before = self.dictionary.get(&self.heap, atoms, key);
        let dictionary = self.dictionary.put(&self.heap, atoms, key, value);
        self.dictionary = dictionary;
        match before {
            Some(term) => term,
            None => Term::Atom(ATOM_UNDEFINED),
        }
    }

    /// What is under `key` in the dictionary, or the atom `undefined` if
    /// nothing is.
    pub fn get_value_from_key(&self, atoms: &AtomTable, key: Term) -> (r: Term)
        requires
            self.wf(),
            self.heap.contains(key),
            names_extend(atoms@, self.heap.names@),
        ensures
            self.heap.contains(r),
            self.dictionary_mapping().contains_key(self.heap.value(key)) ==> self.heap.value(r)
                == self.dictionary_mapping()[self.heap.value(key)],
            !self.dictionary_mapping().contains_key(self.heap.value(key)) ==> r == Term::Atom(
                ATOM_UNDEFINED,
            ),
    {
        match self.dictionary.get(&self.heap, atoms, key) {
            Some(term) => term,
            None => Term::Atom(ATOM_UNDEFINED),
        }
    }

    /// Takes `key` out of the dictionary. Returns what was under the key, or
    /// the atom `undefined` if nothing was.
    pub fn erase_value_from_key(&mut self, atoms: &AtomTable, key: Term) -> (r: Term)
        requires
            old(self).wf(),
            old(self).heap.contains(key),
            names_extend(atoms@, old(self).heap.names@),
        ensures
            final(self).wf(),
            *final(self) == (Process { dictionary: final(self).dictionary, ..*old(self) }),
            final(self).dictionary_mapping() == old(self).dictionary_mapping().remove(
                old(self).heap.value(key),
            ),
            final(self).heap.contains(r),
            old(self).dictionary_mapping().contains_key(old(self).heap.value(key))
                ==> final(self).heap.value(r) == old(self).dictionary_mapping()[old(
                self,
            ).heap.value(key)],
            !old(self).dictionary_mapping().contains_key(old(self).heap.value(key)) ==> r
                == Term::Atom(ATOM_UNDEFINED),
    {
        let before = self.dictionary.get(&self.heap, atoms, key);
        let dictionary = self.dictionary.remove(&self.heap, atoms, key);
        self.dictionary = dictionary;
        match before {
            Some(term) => term,
            None => Term::Atom(ATOM_UNDEFINED),
        }
    }
}

/// Number of arguments of the frames from `n` on, if it fits the machine
/// word.
pub fn arguments_from(frames: &Vec<FrameWithArguments>, n: usize) -> (r: Option<usize>)
    requires
        n <= frames@.len(),
    ensures
        r == (if count_arguments(frames@, n as int) <= usize::MAX {
            Some(count_arguments(frames@, n as int) as usize)
        } else {
            None
        }),
{
    let mut total: usize = 0;
    let mut i: usize = frames.len();
    while i > n
        invariant
            n <= i <= frames@.len(),
            total == count_arguments(frames@, i as int),
        decreases i,
    {
        i -= 1;
        let more: usize = frames[i].arguments.len();
        if more > usize::MAX - total {
            proof {
                lemma_count_arguments_monotone(frames@, n as int, i as int);
            }
            return None;
        }
        total = total + more;
    }
    Some(total)
}

/// The frames from further on have no more arguments.
pub proof fn lemma_count_arguments_monotone(frames: Seq<FrameWithArguments>, i: int, j: int)
    requires
        0 <= i <= j <= frames.len(),
    ensures
        count_arguments(frames, i) >= count_arguments(frames, j),
    decreases j - i,
{
    if i < j {
        lemma_count_arguments_monotone(frames, i + 1, j);
    }
}

/// True if every argument of every frame is a term of the heap.
pub open spec fn arguments_within(heap: &Heap, frames: Seq<FrameWithArguments>) -> bool {
    forall|i: int| 0 <= i < frames.len() ==> heap.contains_all((#[trigger] frames[i]).arguments@)
}

/// Gives a process its work and makes it runnable: the frames, with the
/// out-of-code frame below them, go on the call stack so that the first
/// frame is on top, and their arguments on the operand stack. If the heap
/// has no room for the arguments, nothing changes.
pub fn runnable(process: &mut Process, frames_with_arguments: Vec<FrameWithArguments>) -> (r:
    Result<(), Alloc>)
    requires
        old(process).wf(),
        arguments_within(&old(process).heap, frames_with_arguments@),
    ensures
        final(process).wf(),
        r is Ok <==> count_arguments(frames_with_arguments@, 0) <= old(process).heap.spare(),
        r is Ok ==> {
            &&& final(process).status == Status::Runnable
            &&& final(process).frames@ == frames_with(
                old(process).frames@.push(out_of_code()),
                frames_with_arguments@,
                0,
            )
            &&& final(process).stack@ == stack_with_arguments(
                old(process).stack@,
                frames_with_arguments@,
                0,
            )
            &&& final(process).heap == (Heap {
                reserved: (old(process).heap.reserved + count_arguments(
                    frames_with_arguments@,
                    0,
                )) as usize,
                ..old(process).heap
            })
            &&& *final(process) == (Process {
                status: final(process).status,
                frames: final(process).frames,
                stack: final(process).stack,
                heap: final(process).heap,
                ..*old(process)
            })
        },
        r is Err ==> *final(process) == *old(process),
{
    let total = arguments_from(&frames_with_arguments, 0);
    match total {
        None => {
            return Err(Alloc);
        },
        Some(words) => {
            if words > process.heap.available() {
                return Err(Alloc);
            }
        },
    }
    process.frames.push(out_of_code_frame());
    let mut i: usize = frames_with_arguments.len();
    while i > 0
        invariant
            0 <= i <= frames_with_arguments@.len(),
            old(process).wf(),
            process.wf(),
            arguments_within(&old(process).heap, frames_with_arguments@),
            count_arguments(frames_with_arguments@, 0) <= old(process).heap.spare(),
            process.frames@ == frames_with(
                old(process).frames@.push(out_of_code()),
                frames_with_arguments@,
                i as int,
            ),
            process.stack@ == stack_with_arguments(
                old(process).stack@,
                frames_with_arguments@,
                i as int,
            ),
            process.heap == (Heap {
                reserved: (old(process).heap.reserved + count_arguments(
                    frames_with_arguments@,
                    i as int,
                )) as usize,
                ..old(process).heap
            }),
            *process == (Process {
                frames: process.frames,
                stack: process.stack,
                heap: process.heap,
                ..*old(process)
            }),
        decreases i,
    {
        i -= 1;
        proof {
            lemma_count_arguments_monotone(frames_with_arguments@, 0, i as int);
            assert(old(process).heap.contains_all(frames_with_arguments@[i as int].arguments@));
            assert(process.heap.contains_all(frames_with_arguments@[i as int].arguments@));
        }
        let pushed = process.stack_push_slice(frames_with_arguments[i].arguments.as_slice());
        proof {
            assert(pushed is Ok);
        }
        process.frames.push(frames_with_arguments[i].frame);
    }
    process.status = Status::Runnable;
    Ok(())
}

/// The function that the first process runs.
pub open spec fn init_function() -> ModuleFunctionArity {
    ModuleFunctionArity { module: ATOM_UNDEFINED, function: ATOM_UNDEFINED, arity: 0 }
}

/// The first process: a heap of the size that `next_heap_size` gives for
/// `minimum_heap_size`, and the init frame, on top of the out-of-code frame,
/// to run. Fails if that heap size is more than `MAX_HEAP_SIZE`.
pub fn init(minimum_heap_size: usize) -> (r: Result<Process, Alloc>)
    ensures
        r is Ok <==> doubled_to(MIN_HEAP_SIZE as nat, minimum_heap_size as nat) <= MAX_HEAP_SIZE,
        r is Ok ==> {
            &&& r->Ok_0.wf()
            &&& r->Ok_0.pid == 0
            &&& r->Ok_0.parent == None::<usize>
            &&& r->Ok_0.status == Status::Runnable
            &&& r->Ok_0.heap.capacity == doubled_to(
                MIN_HEAP_SIZE as nat,
                minimum_heap_size as nat,
            )
            &&& r->Ok_0.heap.used == 0
            &&& r->Ok_0.max_heap_size == MAX_HEAP_SIZE
            &&& r->Ok_0.stack@.len() == 0
            &&& r->Ok_0.mailbox@.len() == 0
            &&& r->Ok_0.reductions == 0
            &&& r->Ok_0.frames@ == seq![
                out_of_code(),
                Frame { module_function_arity: init_function(), code: INIT_CODE },
            ]
        },
{
    let module_function_arity = ModuleFunctionArity {
        module: ATOM_UNDEFINED,
        function: ATOM_UNDEFINED,
        arity: 0,
    };
    let heap_size: usize = next_heap_size(minimum_heap_size);
    if heap_size > MAX_HEAP_SIZE {
        return Err(Alloc);
    }
    let mut process = Process::new(0, None, module_function_arity, heap_size, MAX_HEAP_SIZE);
    let frame = Frame::new(module_function_arity, INIT_CODE);
    let no_arguments: Vec<Term> = Vec::new();
    let mut frames: Vec<FrameWithArguments> = Vec::new();
    frames.push(frame.with_arguments(false, no_arguments.as_slice()));
    proof {
        reveal_with_fuel(count_arguments, 3);
        reveal_with_fuel(frames_with, 3);
        reveal_with_fuel(stack_with_arguments, 3);
        assert(process.heap.contains_all(frames@[0].arguments@));
    }
    match runnable(&mut process, frames) {
        Ok(()) => {
            proof {
                assert(process.frames@ =~= seq![
                    out_of_code(),
                    Frame { module_function_arity: init_function(), code: INIT_CODE },
                ]);
                assert(process.stack@ =~= Seq::<Term>::empty());
            }
            Ok(process)
        },
        Err(e) => Err(e),
    }
}

/// The mailbox after each of the first `upto` messages was sent to it, in
/// their order.
pub open spec fn after_sends(mailbox: Seq<Value>, messages: Seq<Value>, upto: int) -> Seq<Value>
    decreases upto,
{
    if upto <= 0 || upto > messages.len() {
        mailbox
    } else {
        after_sends(mailbox, messages, upto - 1).push(messages[upto - 1])
    }
}

/// What `count` receives take out of the mailbox, in the order in which
/// they take it.
pub open spec fn received(mailbox: Seq<Value>, count: int) -> Seq<Value>
    decreases count,
{
    if count <= 0 || mailbox.len() == 0 {
        Seq::empty()
    } else {
        seq![mailbox[0]] + received(mailbox.drop_first(), count - 1)
    }
}

/// Receiving takes the messages out as they are in the mailbox.
pub proof fn lemma_received(mailbox: Seq<Value>, count: int)
    requires
        0 <= count <= mailbox.len(),
    ensures
        received(mailbox, count) == mailbox.subrange(0, count),
    decreases count,
{
    if count > 0 {
        lemma_received(mailbox.drop_first(), count - 1);
        assert(seq![mailbox[0]] + mailbox.drop_first().subrange(0, count - 1)
            =~= mailbox.subrange(0, count));
    } else {
        assert(mailbox.subrange(0, 0) =~= Seq::<Value>::empty());
    }
}

/// Sending puts the messages at the end of the mailbox, in their order.
pub proof fn lemma_after_sends(mailbox: Seq<Value>, messages: Seq<Value>, upto: int)
    requires
        0 <= upto <= messages.len(),
    ensures
        after_sends(mailbox, messages, upto) == mailbox + messages.subrange(0, upto),
    decreases upto,
{
    if upto > 0 {
        lemma_after_sends(mailbox, messages, upto - 1);
        assert((mailbox + messages.subrange(0, upto - 1)).push(messages[upto - 1]) =~= mailbox
            + messages.subrange(0, upto));
    } else {
        assert(mailbox + messages.subrange(0, 0) =~= mailbox);
    }
}

/// The mailbox is first in, first out: messages sent to an empty mailbox,
/// one after the other, are received in the order in which they were sent.
pub proof fn lemma_mailbox_fifo(messages: Seq<Value>)
    ensures
        received(
            after_sends(Seq::empty(), messages, messages.len() as int),
            messages.len() as int,
        ) == messages,
{
    let n = messages.len() as int;
    lemma_after_sends(Seq::empty(), messages, n);
    let mailbox = after_sends(Seq::empty(), messages, n);
    assert(Seq::<Value>::empty() + messages.subrange(0, n) =~= messages);
    lemma_received(mailbox, n);
    assert(messages.subrange(0, n) =~= messages);
}

/// What a process that has used `reductions` reductions does next, given
/// its call stack.
pub open spec fn decided(reductions: u64, frames: Seq<Frame>) -> Step {
    if reductions >= MAX_REDUCTIONS {
        Step::Yield
    } else if frames.len() == 0 || frames.last().code == OUT_OF_CODE {
        Step::Exit
    } else {
        Step::Call(frames.last())
    }
}

/// No process runs past its reductions: one that was scheduled, and has
/// run frames `MAX_REDUCTIONS` times since, yields, whatever its call stack
/// holds, and it has yielded or ended before it runs a frame once more.
pub proof fn lemma_yields_within_budget(frames: Seq<Frame>, calls: nat)
    requires
        calls >= MAX_REDUCTIONS,
        calls <= u64::MAX,
    ensures
        decided(calls as u64, frames) == Step::Yield,
{
}

} // verus!
