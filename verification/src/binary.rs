//! Reading bitstrings: a binary of whole bytes, or a window into one.

use vstd::prelude::*;
use crate::heap::{
    bitstring_bytes, byte_at, cell_ok, high_mask, shifted_byte, window_value, Heap, Object,
    SubBinary,
};
use crate::term::Term;
use crate::value::Value;

verus! {

/// Whole bytes of a bitstring value.
pub open spec fn full_bytes(v: Value) -> Seq<u8> {
    bitstring_bytes(v)
}

/// Count of the bits after the whole bytes of a bitstring value.
pub open spec fn partial_count(v: Value) -> nat {
    match v {
        Value::Bitstring(_, count, _) => count,
        _ => 0,
    }
}

/// The bits after the whole bytes of a bitstring value, in the high-order
/// end of a byte.
pub open spec fn partial_bits(v: Value) -> u8 {
    match v {
        Value::Bitstring(_, _, bits) => bits,
        _ => 0,
    }
}

/// The bytes that a counted reference leads to.
pub fn shared_bytes(shared: &std::sync::Arc<Vec<u8>>) -> (r: &Vec<u8>)
    ensures
        r@ == shared@,
{
    &**shared
}

/// The byte at `index`, or 0 past the end.
pub fn read_byte(bytes: &[u8], index: usize) -> (r: u8)
    ensures
        r == byte_at(bytes@, index as int),
{
    if index < bytes.len() {
        bytes[index]
    } else {
        0
    }
}

/// The eight bits that start `bit_offset` bits into the byte at `index`.
pub fn read_shifted(bytes: &[u8], index: usize, bit_offset: u8) -> (r: u8)
    ensures
        r == shifted_byte(bytes@, index as int, bit_offset),
{
    if bit_offset == 0 || bit_offset >= 8 {
        read_byte(bytes, index)
    } else {
        let high: u8 = read_byte(bytes, index);
        let low: u8 = if index < bytes.len() {
            read_byte(bytes, index + 1)
        } else {
            0
        };
        let back: u8 = 8 - bit_offset;
        (high << bit_offset) | (low >> back)
    }
}

/// A byte whose `count` high-order bits are set.
pub fn mask_high(count: u8) -> (r: u8)
    ensures
        r == high_mask(count),
{
    if count == 0 {
        0
    } else if count >= 8 {
        255
    } else {
        let back: u8 = 8 - count;
        255u8 << back
    }
}

impl Heap {
    /// The bytes that a bitstring term reads from, and its window into them;
    /// `None` for any other term.
    pub fn bitstring_window(&self, t: Term) -> (r: Option<(&Vec<u8>, SubBinary)>)
        requires
            self.wf(),
            self.contains(t),
        ensures
            r is Some <==> self.value(t) is Bitstring,
            r is Some ==> {
                &&& self.value(t) == window_value(r->Some_0.1, r->Some_0.0@)
                &&& r->Some_0.1.bit_offset < 8
                &&& r->Some_0.1.partial_byte_bit_len < 8
                &&& r->Some_0.1.byte_offset + r->Some_0.1.full_byte_len <= r->Some_0.0@.len()
                &&& r->Some_0.1.original is Boxed
                &&& r->Some_0.1.original->Boxed_0 < self.objects@.len()
                &&& crate::heap::cell_bytes(self.objects@[r->Some_0.1.original->Boxed_0 as int])
                    == Some(r->Some_0.0@)
                &&& crate::heap::window_fits(r->Some_0.1, r->Some_0.0@)
            },
    {
        match t {
            Term::Boxed(p) => {
                proof {
                    assert(cell_ok(self.objects@, self.values@, self.names@, p as int));
                }
                match &self.objects[p] {
                    Object::HeapBinary(bytes) => {
                        let whole = SubBinary {
                            original: t,
                            byte_offset: 0,
                            bit_offset: 0,
                            full_byte_len: bytes.len(),
                            partial_byte_bit_len: 0,
                        };
                        proof {
                            let v = window_value(whole, bytes@);
                            assert(full_bytes(v) =~= bytes@);
                            assert(0u8 & 0u8 == 0u8) by (bit_vector);
                            assert forall|x: u8| x & 0u8 == 0u8 by {
                                assert(x & 0u8 == 0u8) by (bit_vector);
                            }
                        }
                        Some((bytes, whole))
                    },
                    Object::ProcBin(shared) => {
                        let bytes: &Vec<u8> = shared_bytes(shared);
                        let whole = SubBinary {
                            original: t,
                            byte_offset: 0,
                            bit_offset: 0,
                            full_byte_len: bytes.len(),
                            partial_byte_bit_len: 0,
                        };
                        proof {
                            let v = window_value(whole, bytes@);
                            assert(full_bytes(v) =~= bytes@);
                            assert forall|x: u8| x & 0u8 == 0u8 by {
                                assert(x & 0u8 == 0u8) by (bit_vector);
                            }
                        }
                        Some((bytes, whole))
                    },
                    Object::SubBinary(sub) => {
                        let q: usize = match sub.original {
                            Term::Boxed(q) => q,
                            _ => 0,
                        };
                        proof {
                            assert(cell_ok(self.objects@, self.values@, self.names@, q as int));
                        }
                        match &self.objects[q] {
                            Object::HeapBinary(bytes) => Some((bytes, *sub)),
                            Object::ProcBin(shared) => Some((shared_bytes(shared), *sub)),
                            _ => None,
                        }
                    },
                    _ => None,
                }
            },
            Term::List(p) => {
                proof {
                    assert(cell_ok(self.objects@, self.values@, self.names@, p as int));
                }
                None
            },
            _ => None,
        }
    }
}

/// The whole byte at `index` of a window into `bytes`.
pub fn window_byte(bytes: &[u8], window: &SubBinary, index: usize) -> (r: u8)
    requires
        index < window.full_byte_len,
        window.byte_offset + window.full_byte_len <= bytes@.len(),
    ensures
        r == full_bytes(window_value(*window, bytes@))[index as int],
{
    let _len: usize = bytes.len();
    read_shifted(bytes, window.byte_offset + index, window.bit_offset)
}

/// The bits after the whole bytes of a window into `bytes`.
pub fn window_partial(bytes: &[u8], window: &SubBinary) -> (r: u8)
    requires
        window.byte_offset + window.full_byte_len <= bytes@.len(),
    ensures
        r == partial_bits(window_value(*window, bytes@)),
{
    let _len: usize = bytes.len();
    let last: u8 = read_shifted(
        bytes,
        window.byte_offset + window.full_byte_len,
        window.bit_offset,
    );
    last & mask_high(window.partial_byte_bit_len)
}

} // verus!
