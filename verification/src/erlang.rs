//! The built-in operations of the `erlang` module that the runtime itself
//! provides: plain functions over terms, heaps and processes.

pub mod and_2;
pub mod append_element_2;
pub mod are_not_equal_after_conversion_2;
pub mod atom_to_binary_2;
pub mod bitstring_to_list_1;
pub mod bnot_1;
pub mod bsl_2;
pub mod byte_size_1;
pub mod cancel_timer_1;
pub mod cancel_timer_2;
pub mod concatenate_2;
pub mod convert_time_unit_3;
pub mod div_2;
pub mod erase_1;
pub mod iolist_to_iovec_1;
pub mod is_greater_than_or_equal_2;
pub mod not_1;
pub mod or_2;
pub mod orelse_2;
pub mod registered_0;
pub mod send_2;
pub mod spawn_1;
pub mod spawn_3;
pub mod start_timer_3;
pub mod subtract_2;
pub mod system_time_1;
pub mod term_to_binary_1;
