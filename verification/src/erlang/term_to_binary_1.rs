//! `term_to_binary/1`: a term in the external term format.
//!
//! The format starts with a version byte. Each term follows as a tag byte
//! and what the tag asks for; numbers of more than one byte have their most
//! significant byte first, but for the magnitude of a big integer, which
//! has its least significant byte first.

use vstd::prelude::*;
use crate::atom::{names_extend, AtomTable};
use crate::copy::lemma_magnitude_positive;
use crate::exception::Exception;
use crate::heap::{binary_words, cell_ok, magnitude, Heap, Object};
use crate::term::Term;
use crate::value::{depth, depth_all, lemma_depth_all_covers, Value};

verus! {

/// The version of the format.
pub const VERSION: u8 = 131;

/// The tag of an integer from 0 to 255.
pub const SMALL_INTEGER_EXT: u8 = 97;

/// The tag of an integer of 32 bits.
pub const INTEGER_EXT: u8 = 98;

/// The tag of an integer whose magnitude takes up to 255 bytes.
pub const SMALL_BIG_EXT: u8 = 110;

/// The tag of an integer whose magnitude takes more than 255 bytes.
pub const LARGE_BIG_EXT: u8 = 111;

/// The tag of an atom with a name of more than 255 bytes.
pub const ATOM_UTF8_EXT: u8 = 118;

/// The tag of an atom with a name of up to 255 bytes.
pub const SMALL_ATOM_UTF8_EXT: u8 = 119;

/// The tag of the empty list.
pub const NIL_EXT: u8 = 106;

/// The tag of a list that is not empty.
pub const LIST_EXT: u8 = 108;

/// The tag of a tuple of up to 255 elements.
pub const SMALL_TUPLE_EXT: u8 = 104;

/// The tag of a tuple of more than 255 elements.
pub const LARGE_TUPLE_EXT: u8 = 105;

/// The tag of a binary of whole bytes.
pub const BINARY_EXT: u8 = 109;

/// The tag of a bitstring that ends within a byte.
pub const BIT_BINARY_EXT: u8 = 77;

/// The tag of a map.
pub const MAP_EXT: u8 = 116;

/// The tag of a process identifier.
pub const NEW_PID_EXT: u8 = 88;

/// The tag of a reference.
pub const NEWER_REFERENCE_EXT: u8 = 90;

/// The number `n` in `width` bytes, the most significant first.
pub open spec fn be(n: nat, width: nat) -> Seq<u8>
    decreases width,
{
    if width == 0 {
        Seq::empty()
    } else {
        be(n / 256, (width - 1) as nat).push((n % 256) as u8)
    }
}

/// The bytes of a magnitude, the least significant first, as many as it
/// needs.
pub open spec fn le_magnitude(m: nat) -> Seq<u8>
    decreases m,
{
    if m == 0 {
        Seq::empty()
    } else {
        seq![(m % 256) as u8] + le_magnitude(m / 256)
    }
}

/// The name of the node of every process and reference: `nonode@nohost`.
pub open spec fn node() -> Seq<u8> {
    seq![
        SMALL_ATOM_UTF8_EXT,
        13u8,
        110u8,
        111u8,
        110u8,
        111u8,
        100u8,
        101u8,
        64u8,
        110u8,
        111u8,
        104u8,
        111u8,
        115u8,
        116u8,
    ]
}

/// An integer in the format.
pub open spec fn encoded_integer(n: int) -> Seq<u8> {
    if 0 <= n <= 255 {
        seq![SMALL_INTEGER_EXT, n as u8]
    } else if -2147483648 <= n <= 2147483647 {
        seq![INTEGER_EXT] + be(
            (if n < 0 {
                n + 4294967296
            } else {
                n
            }) as nat,
            4,
        )
    } else {
        let bytes = le_magnitude(
            (if n < 0 {
                -n
            } else {
                n
            }) as nat,
        );
        let sign: u8 = if n < 0 {
            1
        } else {
            0
        };
        if bytes.len() <= 255 {
            seq![SMALL_BIG_EXT, bytes.len() as u8, sign] + bytes
        } else {
            seq![LARGE_BIG_EXT] + be(bytes.len(), 4) + seq![sign] + bytes
        }
    }
}

/// True if the integer can be written: its magnitude takes no more bytes
/// than 32 bits count.
pub open spec fn integer_fits(n: int) -> bool {
    le_magnitude((if n < 0 {
        -n
    } else {
        n
    }) as nat).len() <= u32::MAX
}

/// Puts the number `n` at the end of `out` in `width` bytes, the most
/// significant first.
pub fn push_be(out: &mut Vec<u8>, n: u64, width: u8)
    requires
        width <= 8,
    ensures
        final(out)@ == old(out)@ + be(n as nat, width as nat),
{
    let ghost start = out@;
    let mut i: u8 = width;
    proof {
        lemma_be_none(n as nat / pow256(width as nat));
        assert(out@ =~= start + be(n as nat / pow256(width as nat), 0));
    }
    // The bytes are written from the most significant on: byte `i - 1`
    // counted from the least significant is `n / 256^(i - 1) % 256`.
    while i > 0
        invariant
            0 <= i <= width <= 8,
            out@ == start + be(n as nat / pow256(i as nat), (width - i) as nat),
        decreases i,
    {
        i -= 1;
        let shifted: u64 = shift_bytes(n, i);
        let byte: u8 = (shifted % 256) as u8;
        proof {
            let high = n as nat / pow256((i + 1) as nat);
            let low = n as nat / pow256(i as nat);
            assert(pow256((i + 1) as nat) == 256 * pow256(i as nat));
            lemma_pow256_positive(i as nat);
            assert(low / 256 == high) by (nonlinear_arith)
                requires
                    high == (n as nat) / (256 * pow256(i as nat)),
                    low == (n as nat) / pow256(i as nat),
                    pow256(i as nat) > 0,
            ;
            lemma_be_more(low, (width - i) as nat);
        }
        out.push(byte);
        proof {
            let low = n as nat / pow256(i as nat);
            assert(out@ =~= start + be(low, (width - i) as nat));
        }
    }
    proof {
        lemma_pow256_none();
        assert(n as nat / 1 == n as nat);
    }
}

/// 256 to the power 0 is 1.
pub proof fn lemma_pow256_none()
    ensures
        pow256(0) == 1,
{
}

/// A number in no bytes is no bytes.
pub proof fn lemma_be_none(x: nat)
    ensures
        be(x, 0) == Seq::<u8>::empty(),
{
}

/// A number in a byte more has its last byte at the end.
pub proof fn lemma_be_more(x: nat, width: nat)
    requires
        width > 0,
    ensures
        be(x, width) == be(x / 256, (width - 1) as nat).push((x % 256) as u8),
{
}

/// 256 to the power `n`.
pub open spec fn pow256(n: nat) -> nat
    decreases n,
{
    if n == 0 {
        1
    } else {
        256 * pow256((n - 1) as nat)
    }
}

/// A power of 256 is positive.
pub proof fn lemma_pow256_positive(n: nat)
    ensures
        pow256(n) > 0,
    decreases n,
{
    if n > 0 {
        lemma_pow256_positive((n - 1) as nat);
    }
}

/// `n` without its `count` least significant bytes.
pub fn shift_bytes(n: u64, count: u8) -> (r: u64)
    requires
        count < 8,
    ensures
        r == n as nat / pow256(count as nat),
{
    let mut r: u64 = n;
    let mut i: u8 = 0;
    proof {
        assert(pow256(0) == 1);
    }
    while i < count
        invariant
            0 <= i <= count < 8,
            r == n as nat / pow256(i as nat),
        decreases count - i,
    {
        proof {
            lemma_pow256_positive(i as nat);
            assert((n as nat / pow256(i as nat)) / 256 == n as nat / (256 * pow256(i as nat)))
                by (nonlinear_arith)
                requires
                    pow256(i as nat) > 0,
            ;
        }
        r = r / 256;
        i += 1;
    }
    r
}

/// Puts the bytes of a magnitude at the end of `out`, the least significant
/// first, as many as it needs.
pub fn push_le_magnitude(out: &mut Vec<u8>, m: u64)
    ensures
        final(out)@ == old(out)@ + le_magnitude(m as nat),
{
    let ghost start = out@;
    let mut rest: u64 = m;
    proof {
        assert(out@ =~= start + Seq::<u8>::empty());
    }
    let ghost mut written: Seq<u8> = Seq::empty();
    while rest > 0
        invariant
            out@ == start + written,
            le_magnitude(m as nat) == written + le_magnitude(rest as nat),
        decreases rest,
    {
        let byte: u8 = (rest % 256) as u8;
        out.push(byte);
        proof {
            let before = written;
            written = written.push(byte);
            assert(out@ =~= start + written);
            assert(before + (seq![byte] + le_magnitude(rest as nat / 256)) =~= written
                + le_magnitude(rest as nat / 256));
        }
        rest = rest / 256;
    }
    proof {
        assert(written + Seq::<u8>::empty() =~= written);
    }
}

/// The number `n` in `width` bytes, the least significant first.
pub open spec fn le_fixed(n: nat, width: nat) -> Seq<u8>
    decreases width,
{
    if width == 0 {
        Seq::empty()
    } else {
        seq![(n % 256) as u8] + le_fixed(n / 256, (width - 1) as nat)
    }
}

/// The bytes of a magnitude begin with the bytes of its low part.
pub proof fn lemma_le_low(low: nat, high: nat, width: nat)
    requires
        low < pow256(width),
        high > 0,
    ensures
        le_magnitude(low + pow256(width) * high) == le_fixed(low, width) + le_magnitude(high),
    decreases width,
{
    let m = low + pow256(width) * high;
    if width == 0 {
        assert(pow256(0) == 1);
        assert(m == high) by (nonlinear_arith)
            requires
                m == low + 1 * high,
                low < 1,
        ;
        assert(le_fixed(low, 0) + le_magnitude(high) =~= le_magnitude(high));
    } else {
        let p = pow256((width - 1) as nat);
        lemma_pow256_positive((width - 1) as nat);
        assert(pow256(width) == 256 * p);
        let k = p * high;
        assert(k > 0 && m == 256 * k + low) by (nonlinear_arith)
            requires
                m == low + (256 * p) * high,
                k == p * high,
                high > 0,
                p > 0,
        ;
        vstd::arithmetic::div_mod::lemma_mod_multiples_vanish(k as int, low as int, 256);
        vstd::arithmetic::div_mod::lemma_hoist_over_denominator(low as int, k as int, 256);
        vstd::arithmetic::div_mod::lemma_multiply_divide_lt(low as int, 256, p as int);
        assert(low as int + k * 256 == m);
        assert(m % 256 == low % 256);
        assert(m / 256 == low / 256 + p * high);
        assert(low / 256 < p);
        lemma_le_low(low / 256, high, (width - 1) as nat);
        assert(le_magnitude(m) == seq![(m % 256) as u8] + le_magnitude(m / 256));
        assert(le_fixed(low, width) == seq![(low % 256) as u8] + le_fixed(
            low / 256,
            (width - 1) as nat,
        ));
        assert(seq![(m % 256) as u8] + (le_fixed(low / 256, (width - 1) as nat) + le_magnitude(
            high,
        )) =~= le_fixed(low, width) + le_magnitude(high));
    }
}

/// Puts the number `n` at the end of `out` in four bytes, the least
/// significant first.
pub fn push_le_digit(out: &mut Vec<u8>, n: u32)
    ensures
        final(out)@ == old(out)@ + le_fixed(n as nat, 4),
{
    let b0: u8 = (n % 256) as u8;
    let b1: u8 = ((n / 256) % 256) as u8;
    let b2: u8 = ((n / 65536) % 256) as u8;
    let b3: u8 = ((n / 16777216) % 256) as u8;
    proof {
        reveal_with_fuel(le_fixed, 5);
        let x = n as nat;
        assert((x / 256) / 256 == x / 65536);
        assert(((x / 256) / 256) / 256 == x / 16777216);
        assert(le_fixed(x, 4) =~= seq![b0, b1, b2, b3]);
    }
    out.push(b0);
    out.push(b1);
    out.push(b2);
    out.push(b3);
    proof {
        assert(out@ =~= old(out)@ + seq![b0, b1, b2, b3]);
    }
}

/// The bytes of the magnitude that the digits stand for, the least
/// significant first, as many as it needs.
pub fn magnitude_bytes(digits: &Vec<u32>) -> (r: Vec<u8>)
    requires
        crate::heap::trimmed(digits@),
    ensures
        r@ == le_magnitude(magnitude(digits@)),
{
    let mut out: Vec<u8> = Vec::new();
    let n: usize = digits.len();
    if n == 0 {
        return out;
    }
    let mut i: usize = 0;
    proof {
        assert(digits@.subrange(0, n as int) =~= digits@);
        assert(out@ + le_magnitude(magnitude(digits@)) =~= le_magnitude(magnitude(digits@)));
    }
    while i < n - 1
        invariant
            0 <= i <= n - 1,
            n == digits@.len(),
            digits@.last() != 0,
            le_magnitude(magnitude(digits@)) == out@ + le_magnitude(
                magnitude(digits@.subrange(i as int, n as int)),
            ),
        decreases n - i,
    {
        let ghost before = out@;
        push_le_digit(&mut out, digits[i]);
        proof {
            let here = digits@.subrange(i as int, n as int);
            let rest = digits@.subrange(i + 1, n as int);
            assert(here.drop_first() =~= rest);
            assert(rest.last() == digits@.last());
            lemma_magnitude_positive(rest);
            reveal_with_fuel(pow256, 5);
            assert(pow256(4) == 4294967296);
            lemma_le_low(digits@[i as int] as nat, magnitude(rest), 4);
            assert(magnitude(here) == digits@[i as int] as nat + 4294967296 * magnitude(rest));
            assert(before + (le_fixed(digits@[i as int] as nat, 4) + le_magnitude(magnitude(rest)))
                =~= out@ + le_magnitude(magnitude(rest)));
        }
        i += 1;
    }
    let ghost before = out@;
    push_le_magnitude(&mut out, digits[i] as u64);
    proof {
        let here = digits@.subrange(i as int, n as int);
        assert(here.drop_first() =~= Seq::<u32>::empty());
        assert(magnitude(here.drop_first()) == 0);
        assert(magnitude(here) == digits@[i as int] as nat);
    }
    out
}

/// Puts an integer, given as its sign and the bytes of its magnitude, at
/// the end of `out` as a big integer of the format. Returns false, and
/// leaves `out` as it is, if the bytes are more than 32 bits count.
pub fn push_big(out: &mut Vec<u8>, negative: bool, bytes: &Vec<u8>) -> (r: bool)
    ensures
        r == (bytes@.len() <= u32::MAX),
        r ==> final(out)@ == old(out)@ + (if bytes@.len() <= 255 {
            seq![SMALL_BIG_EXT, bytes@.len() as u8, if negative {
                1u8
            } else {
                0u8
            }] + bytes@
        } else {
            seq![LARGE_BIG_EXT] + be(bytes@.len(), 4) + seq![if negative {
                1u8
            } else {
                0u8
            }] + bytes@
        }),
        !r ==> final(out)@ == old(out)@,
{
    let n: usize = bytes.len();
    if n > u32::MAX as usize {
        return false;
    }
    let sign: u8 = if negative {
        1
    } else {
        0
    };
    let ghost start = out@;
    if n <= 255 {
        out.push(SMALL_BIG_EXT);
        out.push(n as u8);
        out.push(sign);
        proof {
            assert(out@ =~= start + seq![SMALL_BIG_EXT, n as u8, sign]);
        }
    } else {
        out.push(LARGE_BIG_EXT);
        push_be(out, n as u64, 4);
        out.push(sign);
        proof {
            assert(out@ =~= start + (seq![LARGE_BIG_EXT] + be(n as nat, 4) + seq![sign]));
        }
    }
    let ghost headed = out@;
    let mut i: usize = 0;
    while i < n
        invariant
            0 <= i <= n,
            n == bytes@.len(),
            out@ == headed + bytes@.subrange(0, i as int),
        decreases n - i,
    {
        out.push(bytes[i]);
        proof {
            assert(out@ =~= headed + bytes@.subrange(0, i + 1));
        }
        i += 1;
    }
    proof {
        assert(bytes@.subrange(0, n as int) =~= bytes@);
        if n <= 255 {
            assert(out@ =~= start + (seq![SMALL_BIG_EXT, n as u8, sign] + bytes@));
        } else {
            assert(out@ =~= start + (seq![LARGE_BIG_EXT] + be(n as nat, 4) + seq![sign] + bytes@));
        }
    }
    true
}

/// Puts a small integer at the end of `out`.
pub fn push_small(out: &mut Vec<u8>, n: i64) -> (r: bool)
    ensures
        r == integer_fits(n as int),
        r,
        final(out)@ == old(out)@ + encoded_integer(n as int),
{
    let ghost start = out@;
    if 0 <= n && n <= 255 {
        out.push(SMALL_INTEGER_EXT);
        out.push(n as u8);
        proof {
            assert(out@ =~= start + seq![SMALL_INTEGER_EXT, n as u8]);
            lemma_fits_u64(n as nat);
        }
        true
    } else if -2147483648 <= n && n <= 2147483647 {
        out.push(INTEGER_EXT);
        let pattern: u64 = if n < 0 {
            (n + 4294967296) as u64
        } else {
            n as u64
        };
        push_be(out, pattern, 4);
        proof {
            assert(out@ =~= start + (seq![INTEGER_EXT] + be(pattern as nat, 4)));
            lemma_fits_u64((if n < 0 {
                -n
            } else {
                n as int
            }) as nat);
        }
        true
    } else {
        let m: u64 = if n < 0 {
            ((-(n + 1)) as u64) + 1
        } else {
            n as u64
        };
        let mut bytes: Vec<u8> = Vec::new();
        push_le_magnitude(&mut bytes, m);
        proof {
            lemma_fits_u64(m as nat);
            assert(bytes@ =~= le_magnitude(m as nat));
        }
        push_big(out, n < 0, &bytes)
    }
}

/// The magnitude of a number of 64 bits takes at most eight bytes.
pub proof fn lemma_fits_u64(m: nat)
    requires
        m <= u64::MAX,
    ensures
        le_magnitude(m).len() <= 8,
{
    reveal_with_fuel(le_magnitude, 10);
    let m1 = m / 256;
    let m2 = m1 / 256;
    let m3 = m2 / 256;
    let m4 = m3 / 256;
    let m5 = m4 / 256;
    let m6 = m5 / 256;
    let m7 = m6 / 256;
    let m8 = m7 / 256;
    assert(m8 == 0);
}

/// Number of cells of a list.
pub open spec fn list_length(v: Value) -> nat
    decreases v,
{
    match v {
        Value::Cons(_, tail) => 1 + list_length(*tail),
        _ => 0,
    }
}

/// True if the value can be written in the format: no count in it is more
/// than its place in the format can hold, and it holds no function.
pub open spec fn encodable(v: Value) -> bool
    decreases v, 0nat,
{
    match v {
        Value::Integer(n) => integer_fits(n),
        Value::Atom(name) => name.len() <= 65535,
        Value::Function(_, _, _, _) => false,
        Value::Tuple(xs) => xs.len() <= u32::MAX && all_encodable(xs, xs.len() as int),
        Value::Mapping(ks, vs) => ks.len() <= u32::MAX && ks.len() == vs.len() && all_encodable(
            ks,
            ks.len() as int,
        ) && all_encodable(vs, vs.len() as int),
        Value::Cons(head, tail) => list_length(v) <= u32::MAX && encodable(*head)
            && tail_encodable(*tail),
        Value::Bitstring(bytes, _, _) => bytes.len() + 1 <= u32::MAX,
        _ => true,
    }
}

/// True if what follows the first element of a list can be written.
pub open spec fn tail_encodable(v: Value) -> bool
    decreases v, 1nat,
{
    match v {
        Value::Cons(head, tail) => encodable(*head) && tail_encodable(*tail),
        _ => encodable(v),
    }
}

/// True if each of the first `upto` values can be written.
pub open spec fn all_encodable(vs: Seq<Value>, upto: int) -> bool
    decreases vs, upto,
{
    if upto <= 0 || upto > vs.len() {
        true
    } else {
        all_encodable(vs, upto - 1) && encodable(vs[upto - 1])
    }
}

/// An atom in the format.
pub open spec fn encoded_atom(name: Seq<u8>) -> Seq<u8> {
    if name.len() <= 255 {
        seq![SMALL_ATOM_UTF8_EXT, name.len() as u8] + name
    } else {
        seq![ATOM_UTF8_EXT] + be(name.len(), 2) + name
    }
}

/// A bitstring in the format.
pub open spec fn encoded_bitstring(bytes: Seq<u8>, count: nat, bits: u8) -> Seq<u8> {
    if count == 0 {
        seq![BINARY_EXT] + be(bytes.len(), 4) + bytes
    } else {
        seq![BIT_BINARY_EXT] + be(bytes.len() + 1, 4) + seq![count as u8] + bytes + seq![bits]
    }
}

/// A value in the format, without the version byte.
pub open spec fn encoded(v: Value) -> Seq<u8>
    decreases v, 0nat,
{
    match v {
        Value::Integer(n) => encoded_integer(n),
        Value::Atom(name) => encoded_atom(name),
        Value::Reference(r) => seq![NEWER_REFERENCE_EXT] + be(2, 2) + node() + be(0, 4) + be(
            r / 4294967296,
            4,
        ) + be(r % 4294967296, 4),
        Value::Pid(p) => seq![NEW_PID_EXT] + node() + be(p % 4294967296, 4) + be(
            p / 4294967296,
            4,
        ) + be(0, 4),
        Value::Function(_, _, _, _) => Seq::empty(),
        Value::Tuple(xs) => (if xs.len() <= 255 {
            seq![SMALL_TUPLE_EXT, xs.len() as u8]
        } else {
            seq![LARGE_TUPLE_EXT] + be(xs.len(), 4)
        }) + encoded_all(xs, xs.len() as int),
        Value::Mapping(ks, vs) => seq![MAP_EXT] + be(ks.len(), 4) + joined_pairs(
            encoded_each(ks),
            encoded_each(vs),
            ks.len() as int,
        ),
        Value::Nil => seq![NIL_EXT],
        Value::Cons(head, tail) => seq![LIST_EXT] + be(list_length(v), 4) + encoded(*head)
            + tail_encoded(*tail),
        Value::Bitstring(bytes, count, bits) => encoded_bitstring(bytes, count, bits),
    }
}

/// What follows the first element of a list in the format: the other
/// elements, and what the list ends in.
pub open spec fn tail_encoded(v: Value) -> Seq<u8>
    decreases v, 1nat,
{
    match v {
        Value::Cons(head, tail) => encoded(*head) + tail_encoded(*tail),
        _ => encoded(v),
    }
}

/// The first `upto` values in the format, one after the other.
pub open spec fn encoded_all(vs: Seq<Value>, upto: int) -> Seq<u8>
    decreases vs, upto,
{
    if upto <= 0 || upto > vs.len() {
        Seq::empty()
    } else {
        encoded_all(vs, upto - 1) + encoded(vs[upto - 1])
    }
}

/// Each value in the format.
pub open spec fn encoded_each(vs: Seq<Value>) -> Seq<Seq<u8>>
    decreases vs, 0nat,
{
    Seq::new(
        vs.len(),
        |i: int|
            if 0 <= i < vs.len() {
                encoded(vs[i])
            } else {
                Seq::empty()
            },
    )
}

/// The first `upto` keys, each followed by its value.
pub open spec fn joined_pairs(ks: Seq<Seq<u8>>, vs: Seq<Seq<u8>>, upto: int) -> Seq<u8>
    decreases upto,
{
    if upto <= 0 || upto > ks.len() || upto > vs.len() {
        Seq::empty()
    } else {
        joined_pairs(ks, vs, upto - 1) + ks[upto - 1] + vs[upto - 1]
    }
}

/// If each value can be written, each of the first ones can.
pub proof fn lemma_all_encodable(vs: Seq<Value>, upto: int, i: int)
    requires
        0 <= i < upto <= vs.len(),
        all_encodable(vs, upto),
    ensures
        encodable(vs[i]),
        all_encodable(vs, i),
    decreases upto,
{
    if i < upto - 1 {
        lemma_all_encodable(vs, upto - 1, i);
    }
}

/// If one of the values cannot be written, not all of them can.
pub proof fn lemma_not_all_encodable(vs: Seq<Value>, i: int)
    requires
        0 <= i < vs.len(),
        !encodable(vs[i]),
    ensures
        !all_encodable(vs, vs.len() as int),
{
    if all_encodable(vs, vs.len() as int) {
        lemma_all_encodable(vs, vs.len() as int, i);
    }
}

/// Puts the bytes at the end of `out`.
pub fn push_bytes(out: &mut Vec<u8>, bytes: &[u8])
    ensures
        final(out)@ == old(out)@ + bytes@,
{
    let ghost start = out@;
    let mut i: usize = 0;
    proof {
        assert(out@ =~= start + bytes@.subrange(0, 0));
    }
    while i < bytes.len()
        invariant
            0 <= i <= bytes@.len(),
            out@ == start + bytes@.subrange(0, i as int),
        decreases bytes@.len() - i,
    {
        out.push(bytes[i]);
        proof {
            assert(out@ =~= start + bytes@.subrange(0, i + 1));
        }
        i += 1;
    }
    proof {
        assert(bytes@.subrange(0, bytes@.len() as int) =~= bytes@);
    }
}

/// Puts the name of the node at the end of `out`.
pub fn push_node(out: &mut Vec<u8>)
    ensures
        final(out)@ == old(out)@ + node(),
{
    let name: [u8; 15] = [
        SMALL_ATOM_UTF8_EXT,
        13u8,
        110u8,
        111u8,
        110u8,
        111u8,
        100u8,
        101u8,
        64u8,
        110u8,
        111u8,
        104u8,
        111u8,
        115u8,
        116u8,
    ];
    proof {
        assert(name@ =~= node());
    }
    push_bytes(out, name.as_slice());
}

/// Puts an atom at the end of `out`. Returns false, and leaves `out` as it
/// is, if the name is longer than 16 bits count.
pub fn push_atom(out: &mut Vec<u8>, name: &[u8]) -> (r: bool)
    ensures
        r == (name@.len() <= 65535),
        r ==> final(out)@ == old(out)@ + encoded_atom(name@),
        !r ==> final(out)@ == old(out)@,
{
    let n: usize = name.len();
    if n > 65535 {
        return false;
    }
    let ghost start = out@;
    if n <= 255 {
        out.push(SMALL_ATOM_UTF8_EXT);
        out.push(n as u8);
        push_bytes(out, name);
        proof {
            assert(out@ =~= start + (seq![SMALL_ATOM_UTF8_EXT, n as u8] + name@));
        }
    } else {
        out.push(ATOM_UTF8_EXT);
        push_be(out, n as u64, 2);
        push_bytes(out, name);
        proof {
            assert(out@ =~= start + (seq![ATOM_UTF8_EXT] + be(n as nat, 2) + name@));
        }
    }
    true
}

/// Puts a process identifier at the end of `out`.
pub fn push_pid(out: &mut Vec<u8>, pid: u64)
    ensures
        final(out)@ == old(out)@ + encoded(Value::Pid(pid as nat)),
{
    let ghost start = out@;
    out.push(NEW_PID_EXT);
    push_node(out);
    push_be(out, pid % 4294967296, 4);
    push_be(out, pid / 4294967296, 4);
    push_be(out, 0, 4);
    proof {
        let p = pid as nat;
        assert(out@ =~= start + (seq![NEW_PID_EXT] + node() + be(p % 4294967296, 4) + be(
            p / 4294967296,
            4,
        ) + be(0, 4)));
    }
}

/// Puts a reference at the end of `out`.
pub fn push_reference(out: &mut Vec<u8>, reference: u64)
    ensures
        final(out)@ == old(out)@ + encoded(Value::Reference(reference as nat)),
{
    let ghost start = out@;
    out.push(NEWER_REFERENCE_EXT);
    push_be(out, 2, 2);
    push_node(out);
    push_be(out, 0, 4);
    push_be(out, reference / 4294967296, 4);
    push_be(out, reference % 4294967296, 4);
    proof {
        let r = reference as nat;
        assert(out@ =~= start + (seq![NEWER_REFERENCE_EXT] + be(2, 2) + node() + be(0, 4) + be(
            r / 4294967296,
            4,
        ) + be(r % 4294967296, 4)));
    }
}

/// Puts a bitstring, given as a window into bytes, at the end of `out`.
/// Returns false, and leaves `out` as it is, if the bytes are more than 32
/// bits count.
pub fn push_bitstring(out: &mut Vec<u8>, bytes: &[u8], window: &crate::heap::SubBinary) -> (r:
    bool)
    requires
        window.byte_offset + window.full_byte_len <= bytes@.len(),
        window.partial_byte_bit_len < 8,
    ensures
        r == encodable(crate::heap::window_value(*window, bytes@)),
        r ==> final(out)@ == old(out)@ + encoded(crate::heap::window_value(*window, bytes@)),
        !r ==> final(out)@ == old(out)@,
{
    let ghost v = crate::heap::window_value(*window, bytes@);
    let n: usize = window.full_byte_len;
    let _len: usize = bytes.len();
    if n >= u32::MAX as usize {
        return false;
    }
    let ghost start = out@;
    if window.partial_byte_bit_len == 0 {
        out.push(BINARY_EXT);
        push_be(out, n as u64, 4);
    } else {
        out.push(BIT_BINARY_EXT);
        push_be(out, n as u64 + 1, 4);
        out.push(window.partial_byte_bit_len);
    }
    let ghost headed = out@;
    let mut i: usize = 0;
    proof {
        assert(out@ =~= headed + crate::binary::full_bytes(v).subrange(0, 0));
    }
    while i < n
        invariant
            0 <= i <= n,
            n == window.full_byte_len,
            window.byte_offset + window.full_byte_len <= bytes@.len(),
            v == crate::heap::window_value(*window, bytes@),
            out@ == headed + crate::binary::full_bytes(v).subrange(0, i as int),
        decreases n - i,
    {
        out.push(crate::binary::window_byte(bytes, window, i));
        proof {
            assert(out@ =~= headed + crate::binary::full_bytes(v).subrange(0, i + 1));
        }
        i += 1;
    }
    proof {
        let full = crate::binary::full_bytes(v);
        assert(full.subrange(0, n as int) =~= full);
    }
    if window.partial_byte_bit_len != 0 {
        out.push(crate::binary::window_partial(bytes, window));
        proof {
            let full = crate::binary::full_bytes(v);
            assert(out@ =~= start + (seq![BIT_BINARY_EXT] + be(full.len() + 1, 4)
                + seq![window.partial_byte_bit_len] + full + seq![crate::binary::partial_bits(v)]));
        }
    } else {
        proof {
            let full = crate::binary::full_bytes(v);
            assert(out@ =~= start + (seq![BINARY_EXT] + be(full.len(), 4) + full));
        }
    }
    true
}

/// Puts a term at the end of `out` in the format. Returns false if the
/// term cannot be written; what was put at the end of `out` by then stays
/// there.
pub fn write(heap: &Heap, atoms: &AtomTable, t: Term, out: &mut Vec<u8>) -> (r: bool)
    requires
        heap.wf(),
        heap.contains(t),
        names_extend(atoms@, heap.names@),
    ensures
        r == encodable(heap.value(t)),
        r ==> final(out)@ == old(out)@ + encoded(heap.value(t)),
    decreases depth(heap.value(t)), 1nat,
{
    proof {
        heap.lemma_shape(t);
    }
    match t {
        Term::SmallInteger(n) => push_small(out, n),
        Term::Atom(a) => push_atom(out, atoms.name(a).as_slice()),
        Term::Reference(reference) => {
            push_reference(out, reference);
            true
        },
        Term::Pid(pid) => {
            push_pid(out, pid as u64);
            true
        },
        Term::Nil => {
            out.push(NIL_EXT);
            proof {
                assert(out@ =~= old(out)@ + seq![NIL_EXT]);
            }
            true
        },
        Term::List(_) => write_list(heap, atoms, t, out),
        Term::Boxed(p) => {
            proof {
                assert(cell_ok(heap.objects@, heap.values@, heap.names@, p as int));
            }
            match &heap.objects[p] {
                Object::Tuple(elements) => {
                    let n: usize = elements.len();
                    if n > u32::MAX as usize {
                        return false;
                    }
                    let ghost start = out@;
                    if n <= 255 {
                        out.push(SMALL_TUPLE_EXT);
                        out.push(n as u8);
                        proof {
                            assert(out@ =~= start + seq![SMALL_TUPLE_EXT, n as u8]);
                        }
                    } else {
                        out.push(LARGE_TUPLE_EXT);
                        push_be(out, n as u64, 4);
                        proof {
                            assert(out@ =~= start + (seq![LARGE_TUPLE_EXT] + be(n as nat, 4)));
                        }
                    }
                    let ghost headed = out@;
                    if !write_all(heap, atoms, elements, out) {
                        return false;
                    }
                    proof {
                        let vs = heap.values_of(elements@);
                        assert(out@ =~= start + ((headed.subrange(
                            start.len() as int,
                            headed.len() as int,
                        )) + encoded_all(vs, vs.len() as int)));
                        assert(headed.subrange(start.len() as int, headed.len() as int) =~= (
                        if n <= 255 {
                            seq![SMALL_TUPLE_EXT, n as u8]
                        } else {
                            seq![LARGE_TUPLE_EXT] + be(n as nat, 4)
                        }));
                    }
                    true
                },
                Object::Closure(_) => false,
                Object::Mapping(m) => {
                    let (keys, values) = m.sorted_entries(heap, atoms);
                    let n: usize = keys.len();
                    if n > u32::MAX as usize {
                        return false;
                    }
                    let ghost start = out@;
                    let ghost ks = heap.values_of(keys@);
                    let ghost vs = heap.values_of(values@);
                    out.push(MAP_EXT);
                    push_be(out, n as u64, 4);
                    let ghost headed = out@;
                    let mut i: usize = 0;
                    proof {
                        assert(out@ =~= headed + joined_pairs(
                            encoded_each(ks),
                            encoded_each(vs),
                            0,
                        ));
                    }
                    while i < n
                        invariant
                            0 <= i <= n,
                            n == keys@.len(),
                            n == values@.len(),
                            heap.wf(),
                            heap.contains_all(keys@),
                            heap.contains_all(values@),
                            names_extend(atoms@, heap.names@),
                            ks == heap.values_of(keys@),
                            vs == heap.values_of(values@),
                            heap.value(t) == Value::Mapping(ks, vs),
                            all_encodable(ks, i as int),
                            all_encodable(vs, i as int),
                            out@ == headed + joined_pairs(
                                encoded_each(ks),
                                encoded_each(vs),
                                i as int,
                            ),
                        decreases n - i,
                    {
                        proof {
                            assert(heap.contains(keys@[i as int]));
                            assert(heap.contains(values@[i as int]));
                            assert(ks[i as int] == heap.value(keys@[i as int]));
                            assert(vs[i as int] == heap.value(values@[i as int]));
                            lemma_depth_all_covers(ks, n as int, i as int);
                            lemma_depth_all_covers(vs, n as int, i as int);
                        }
                        let ghost before = out@;
                        if !write(heap, atoms, keys[i], out) {
                            proof {
                                lemma_not_all_encodable(ks, i as int);
                            }
                            return false;
                        }
                        let ghost middle = out@;
                        if !write(heap, atoms, values[i], out) {
                            proof {
                                lemma_not_all_encodable(vs, i as int);
                            }
                            return false;
                        }
                        proof {
                            let done = joined_pairs(encoded_each(ks), encoded_each(vs), i as int);
                            assert(encoded_each(ks)[i as int] == encoded(ks[i as int]));
                            assert(encoded_each(vs)[i as int] == encoded(vs[i as int]));
                            assert(out@ =~= headed + (done + encoded(ks[i as int]) + encoded(
                                vs[i as int],
                            )));
                        }
                        i += 1;
                    }
                    proof {
                        assert(out@ =~= start + (seq![MAP_EXT] + be(n as nat, 4) + joined_pairs(
                            encoded_each(ks),
                            encoded_each(vs),
                            n as int,
                        )));
                    }
                    true
                },
                Object::BigInteger(negative, digits) => {
                    let bytes = magnitude_bytes(digits);
                    proof {
                        lemma_magnitude_positive_or_small(*negative, digits@);
                    }
                    push_big(out, *negative, &bytes)
                },
                _ => {
                    match heap.bitstring_window(t) {
                        Some((bytes, window)) => push_bitstring(out, bytes.as_slice(), &window),
                        None => false,
                    }
                },
            }
        },
    }
}

/// The magnitude of a big integer of the heap is that of its value.
pub proof fn lemma_magnitude_positive_or_small(negative: bool, digits: Seq<u32>)
    requires
        !(crate::term::MIN_SMALL_INTEGER <= crate::heap::signed_value(negative, digits)
            <= crate::term::MAX_SMALL_INTEGER),
    ensures
        magnitude(digits) > 0,
        negative <==> crate::heap::signed_value(negative, digits) < 0,
        magnitude(digits) == (if crate::heap::signed_value(negative, digits) < 0 {
            -crate::heap::signed_value(negative, digits)
        } else {
            crate::heap::signed_value(negative, digits)
        }),
{
}

/// Puts each of the terms at the end of `out` in the format. Returns false
/// if one of them cannot be written.
pub fn write_all(heap: &Heap, atoms: &AtomTable, terms: &Vec<Term>, out: &mut Vec<u8>) -> (r: bool)
    requires
        heap.wf(),
        heap.contains_all(terms@),
        names_extend(atoms@, heap.names@),
    ensures
        r == all_encodable(heap.values_of(terms@), terms@.len() as int),
        r ==> final(out)@ == old(out)@ + encoded_all(
            heap.values_of(terms@),
            terms@.len() as int,
        ),
    decreases depth_all(heap.values_of(terms@), terms@.len() as int), 2nat,
{
    let ghost start = out@;
    let ghost vs = heap.values_of(terms@);
    let mut i: usize = 0;
    proof {
        assert(out@ =~= start + encoded_all(vs, 0));
    }
    while i < terms.len()
        invariant
            0 <= i <= terms@.len(),
            heap.wf(),
            heap.contains_all(terms@),
            names_extend(atoms@, heap.names@),
            vs == heap.values_of(terms@),
            all_encodable(vs, i as int),
            out@ == start + encoded_all(vs, i as int),
        decreases terms@.len() - i,
    {
        proof {
            assert(heap.contains(terms@[i as int]));
            assert(vs[i as int] == heap.value(terms@[i as int]));
            lemma_depth_all_covers(vs, terms@.len() as int, i as int);
        }
        if !write(heap, atoms, terms[i], out) {
            proof {
                lemma_not_all_encodable(vs, i as int);
            }
            return false;
        }
        proof {
            assert(out@ =~= start + (encoded_all(vs, i as int) + encoded(vs[i as int])));
        }
        i += 1;
    }
    true
}

/// Puts a list at the end of `out` in the format: the number of its cells,
/// its elements, and what it ends in. Returns false if the list cannot be
/// written.
pub fn write_list(heap: &Heap, atoms: &AtomTable, t: Term, out: &mut Vec<u8>) -> (r: bool)
    requires
        heap.wf(),
        heap.contains(t),
        names_extend(atoms@, heap.names@),
        t is List,
    ensures
        r == encodable(heap.value(t)),
        r ==> final(out)@ == old(out)@ + encoded(heap.value(t)),
    decreases depth(heap.value(t)), 0nat,
{
    let ghost whole = heap.value(t);
    let ghost start = out@;
    let mut count: u64 = 0;
    let mut current: Term = t;
    proof {
        heap.lemma_shape(t);
    }
    loop
        invariant
            heap.wf(),
            heap.contains(current),
            whole == heap.value(t),
            whole is Cons,
            count <= u32::MAX,
            list_length(whole) == count + list_length(heap.value(current)),
        ensures
            !(current is List),
        decreases depth(heap.value(current)),
    {
        proof {
            heap.lemma_shape(current);
        }
        match current {
            Term::List(p) => {
                proof {
                    assert(cell_ok(heap.objects@, heap.values@, heap.names@, p as int));
                }
                match &heap.objects[p] {
                    Object::Cons(_, tail) => {
                        if count == u32::MAX as u64 {
                            return false;
                        }
                        count += 1;
                        current = *tail;
                    },
                    _ => {
                        return false;
                    },
                }
            },
            _ => {
                break ;
            },
        }
    }
    out.push(LIST_EXT);
    push_be(out, count, 4);
    let ghost headed = out@;
    proof {
        heap.lemma_shape(current);
        assert(list_length(heap.value(current)) == 0);
        assert(headed =~= start + (seq![LIST_EXT] + be(list_length(whole), 4)));
        assert(out@ =~= headed + Seq::<u8>::empty());
    }
    let ghost mut written: Seq<u8> = Seq::empty();
    let mut current: Term = t;
    loop
        invariant
            heap.wf(),
            heap.contains(current),
            names_extend(atoms@, heap.names@),
            whole == heap.value(t),
            out@ == headed + written,
            whole is Cons,
            list_length(whole) <= u32::MAX,
            tail_encodable(whole) == tail_encodable(heap.value(current)),
            tail_encoded(whole) == written + tail_encoded(heap.value(current)),
            current == t || depth(heap.value(current)) < depth(whole),
            depth(heap.value(current)) <= depth(whole),
        ensures
            !(current is List),
        decreases depth(heap.value(current)),
    {
        proof {
            heap.lemma_shape(current);
        }
        match current {
            Term::List(p) => {
                proof {
                    assert(cell_ok(heap.objects@, heap.values@, heap.names@, p as int));
                }
                match &heap.objects[p] {
                    Object::Cons(head, tail) => {
                        let ghost before = out@;
                        if !write(heap, atoms, *head, out) {
                            return false;
                        }
                        proof {
                            let piece = encoded(heap.value(*head));
                            let earlier = written;
                            written = written + piece;
                            assert(out@ =~= headed + written);
                            assert(earlier + (piece + tail_encoded(heap.value(*tail))) =~= written
                                + tail_encoded(heap.value(*tail)));
                        }
                        current = *tail;
                    },
                    _ => {
                        return false;
                    },
                }
            },
            _ => {
                break ;
            },
        }
    }
    proof {
        heap.lemma_shape(current);
    }
    let ended = write(heap, atoms, current, out);
    proof {
        if ended {
            assert(out@ =~= headed + (written + encoded(heap.value(current))));
            assert(out@ =~= start + (seq![LIST_EXT] + be(list_length(whole), 4) + tail_encoded(
                whole,
            )));
        }
    }
    ended
}

/// The binary that holds `term` in the external term format, after the
/// version byte.
pub fn result(heap: &mut Heap, atoms: &AtomTable, term: Term) -> (r: Result<Term, Exception>)
    requires
        old(heap).wf(),
        old(heap).contains(term),
        names_extend(atoms@, old(heap).names@),
    ensures
        final(heap).wf(),
        final(heap).extends(old(heap)),
        !encodable(old(heap).value(term)) ==> r == Err::<Term, Exception>(Exception::Badarg),
        encodable(old(heap).value(term)) ==> {
            let bytes = seq![VERSION] + encoded(old(heap).value(term));
            &&& r is Ok <==> binary_words(bytes.len()) <= old(heap).spare()
            &&& r is Ok ==> final(heap).contains(r->Ok_0) && final(heap).value(r->Ok_0)
                == Value::Bitstring(bytes, 0, 0)
            &&& r is Ok ==> final(heap).used == old(heap).used + binary_words(bytes.len())
            &&& r is Err ==> r->Err_0 == Exception::Alloc
        },
        r is Err ==> *final(heap) == *old(heap),
{
    let mut out: Vec<u8> = Vec::new();
    out.push(VERSION);
    if !write(heap, atoms, term, &mut out) {
        return Err(Exception::Badarg);
    }
    proof {
        assert(out@ =~= seq![VERSION] + encoded(heap.value(term)));
    }
    match heap.binary_from_bytes(out.as_slice()) {
        Ok(binary) => Ok(binary),
        Err(_) => Err(Exception::Alloc),
    }
}

} // verus!
