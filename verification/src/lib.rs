//! The execution core of a runtime for lightweight, isolated processes that
//! share nothing and talk by messages: terms, process heaps and their
//! collector, maps, processes and the scheduler that runs them.

pub mod atom;
pub mod bigint;
pub mod binary;
pub mod compare;
pub mod construct;
pub mod copy;
pub mod erlang;
pub mod exception;
pub mod frame;
pub mod gc;
pub mod heap;
pub mod integer;
pub mod map;
pub mod maps;
pub mod message;
pub mod order;
pub mod process;
pub mod scheduler;
pub mod term;
pub mod timer;
pub mod turn;
pub mod value;
pub mod web;
pub mod words;
