//! Call-stack entries. A frame names the function it belongs to and the
//! native code to go on with; the runtime never looks inside that code.

use vstd::prelude::*;
use crate::atom::ATOM_UNDEFINED;
use crate::construct::terms_to_vec;
use crate::term::Term;

verus! {

/// The code of the frame at the bottom of every call stack. A process that
/// reaches it has nothing left to run.
pub const OUT_OF_CODE: usize = 0;

/// The code of the first frame of the first process.
pub const INIT_CODE: usize = 1;

/// The code of the first frame of a process that was spawned to apply a
/// function to the arguments on its operand stack.
pub const APPLY_CODE: usize = 2;

/// A function, named by its module, its name and the number of its
/// arguments. Module and name are atoms.
#[derive(Clone, Copy, PartialEq, Eq, Structural, Debug)]
pub struct ModuleFunctionArity {
    pub module: usize,
    pub function: usize,
    pub arity: u8,
}

/// A call-stack entry: a function and the number of the native code to
/// resume it with.
#[derive(Clone, Copy, PartialEq, Eq, Structural, Debug)]
pub struct Frame {
    pub module_function_arity: ModuleFunctionArity,
    pub code: usize,
}

/// A frame together with the arguments to push for it.
pub struct FrameWithArguments {
    pub frame: Frame,
    pub uses_returned: bool,
    pub arguments: Vec<Term>,
}

/// How a new frame is placed on a call stack.
#[derive(Clone, Copy, PartialEq, Eq, Structural, Debug)]
pub enum Placement {
    /// In place of the frame on top, so that the stack does not grow.
    Replace,
    /// On top of the frame on top.
    Push,
}

impl Frame {
    /// The frame of this function with this code.
    pub fn new(module_function_arity: ModuleFunctionArity, code: usize) -> (r: Frame)
        ensures
            r == (Frame { module_function_arity, code }),
    {
        Frame { module_function_arity, code }
    }

    /// The frame with arguments to push for it.
    pub fn with_arguments(self, uses_returned: bool, arguments: &[Term]) -> (r: FrameWithArguments)
        ensures
            r.frame == self,
            r.uses_returned == uses_returned,
            r.arguments@ == arguments@,
    {
        FrameWithArguments { frame: self, uses_returned, arguments: terms_to_vec(arguments) }
    }

    /// True if the frame is the one at the bottom of every call stack.
    pub fn is_out_of_code(&self) -> (r: bool)
        ensures
            r == (self.code == OUT_OF_CODE),
    {
        self.code == OUT_OF_CODE
    }
}

/// The frame at the bottom of every call stack.
pub open spec fn out_of_code() -> Frame {
    Frame {
        module_function_arity: ModuleFunctionArity {
            module: ATOM_UNDEFINED,
            function: ATOM_UNDEFINED,
            arity: 0,
        },
        code: OUT_OF_CODE,
    }
}

/// The frame at the bottom of every call stack.
pub fn out_of_code_frame() -> (r: Frame)
    ensures
        r == out_of_code(),
{
    Frame {
        module_function_arity: ModuleFunctionArity {
            module: ATOM_UNDEFINED,
            function: ATOM_UNDEFINED,
            arity: 0,
        },
        code: OUT_OF_CODE,
    }
}

} // verus!
