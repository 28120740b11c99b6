//! `bsl/2` infix operator: arithmetic shift to the left.

use vstd::prelude::*;
use vstd::arithmetic::power2::{
    lemma2_to64,
    lemma_pow2_adds,
    lemma_pow2_pos,
    lemma_pow2_strictly_increases,
    pow2,
};
use crate::bigint::{big_shl, big_shr};
use crate::copy::integer_words;
use crate::exception::Exception;
use crate::heap::{magnitude, signed_value, Heap};
use crate::integer::{
    digit_weight,
    integer_of,
    lemma_digit_count_at_least,
    lemma_digit_weight_grows,
    lemma_digit_weight_pow2,
    lemma_divided_twice,
    lemma_magnitude_bounds,
    lemma_small_quotient,
    magnitude_of_four,
    trim,
};
use crate::process::MAX_HEAP_SIZE;
use crate::term::{Term, MAX_SMALL_INTEGER};
use crate::value::Value;

verus! {

/// The most bits that an integer other than zero is shifted by to the
/// left: one less than the bits of the largest heap that a process may
/// have.
pub const MAX_SHIFT: i64 = 4294967295;

/// `integer` shifted by `shift` bits: to the left, or to the right by as
/// many bits if `shift` is negative.
pub open spec fn shifted(integer: int, shift: int) -> int {
    if shift >= 0 {
        integer * pow2(shift as nat)
    } else {
        integer / (pow2((-shift) as nat) as int)
    }
}

/// True if the shift is one that is carried out: zero is shifted by any
/// number of bits, every integer to the right by any number of bits, and
/// to the left by no more than `MAX_SHIFT` bits.
pub open spec fn shift_accepted(integer: int, shift: int) -> bool {
    integer == 0 || shift <= MAX_SHIFT
}

/// An integer other than zero that is shifted to the left by 64 bits or
/// more takes more than a word for each 64 bits of the shift.
pub proof fn lemma_shift_takes_room(integer: int, shift: nat)
    requires
        integer != 0,
        shift >= 64,
    ensures
        integer_words(integer * pow2(shift)) >= shift / 64 + 2,
{
    let p = pow2(shift);
    let k = shift / 32;
    lemma2_to64();
    lemma_digit_weight_pow2(k);
    if 32 * k < shift {
        lemma_pow2_strictly_increases(32 * k, shift);
    }
    if 64 < shift {
        lemma_pow2_strictly_increases(64, shift);
    }
    let m: nat = if integer < 0 {
        (-integer) as nat
    } else {
        integer as nat
    };
    assert(m * p >= p) by (nonlinear_arith)
        requires
            m >= 1,
            p >= 0,
    ;
    assert(integer * p == (if integer < 0 {
        -(m * p)
    } else {
        (m * p) as int
    })) by (nonlinear_arith)
        requires
            m == (if integer < 0 {
                -integer
            } else {
                integer
            }),
    ;
    lemma_digit_count_at_least(m * p, k);
    assert(m * p > MAX_SMALL_INTEGER);
    assert((k + 2) / 2 == shift / 64 + 1);
}

/// The limit on a shift to the left never decides on a heap that a process
/// may have: where the shift is beyond it, the heap has no room for the
/// result.
pub proof fn lemma_limit_is_room(integer: int, shift: int, spare: nat)
    requires
        integer != 0,
        shift > MAX_SHIFT,
        spare <= MAX_HEAP_SIZE,
    ensures
        integer_words(shifted(integer, shift)) > spare,
{
    lemma_shift_takes_room(integer, shift as nat);
}

/// The integer with this sign and these digits shifted by `back` bits to
/// the right, rounding down. It is shifted in steps of as many bits as the
/// machine can count at once.
pub fn shift_right(negative: bool, digits: Vec<u32>, back: u128) -> (r: (bool, Vec<u32>))
    ensures
        signed_value(r.0, r.1@) == signed_value(negative, digits@) / (pow2(back as nat) as int),
{
    let ghost n = signed_value(negative, digits@);
    let mut current: (bool, Vec<u32>) = (negative, digits);
    let mut rest: u128 = back;
    proof {
        lemma2_to64();
        assert(pow2(0) == 1);
        assert(n / 1 == n);
    }
    while rest > 0
        invariant
            rest <= back,
            signed_value(current.0, current.1@) == n / (pow2((back - rest) as nat) as int),
        decreases rest,
    {
        let step: usize = if rest > usize::MAX as u128 {
            usize::MAX
        } else {
            rest as usize
        };
        let ghost done = (back - rest) as nat;
        let next = big_shr(current.0, current.1.as_slice(), step);
        proof {
            lemma_pow2_pos(done);
            lemma_pow2_pos(step as nat);
            lemma_divided_twice(n, pow2(done) as int, pow2(step as nat) as int);
            lemma_pow2_adds(done, step as nat);
        }
        current = next;
        rest = rest - step as u128;
    }
    current
}

/// `integer` shifted by `shift` bits to the left; by as many bits to the
/// right, rounding down, if `shift` is negative. The result takes the room
/// that an integer of its size takes.
pub fn result(heap: &mut Heap, integer: Term, shift: Term) -> (r: Result<Term, Exception>)
    requires
        old(heap).wf(),
        old(heap).contains(integer),
        old(heap).contains(shift),
    ensures
        final(heap).wf(),
        final(heap).extends(old(heap)),
        !(old(heap).value(integer) is Integer && old(heap).value(shift) is Integer) ==> r
            == Err::<Term, Exception>(Exception::Badarith),
        old(heap).value(integer) is Integer && old(heap).value(shift) is Integer ==> {
            let n = integer_of(old(heap).value(integer));
            let s = integer_of(old(heap).value(shift));
            let output = shifted(n, s);
            &&& r is Ok <==> shift_accepted(n, s) && integer_words(output) <= old(heap).spare()
            &&& r is Ok ==> final(heap).contains(r->Ok_0) && final(heap).value(r->Ok_0)
                == Value::Integer(output) && final(heap).used == old(heap).used + integer_words(
                output,
            )
            &&& r is Err ==> r->Err_0 == Exception::Alloc
        },
        r is Err ==> *final(heap) == *old(heap),
{
    let (negative, raw) = match heap.integer_digits(integer) {
        Some(parts) => parts,
        None => {
            return Err(Exception::Badarith);
        },
    };
    let (backward, raw_amount) = match heap.integer_digits(shift) {
        Some(parts) => parts,
        None => {
            return Err(Exception::Badarith);
        },
    };
    let digits = trim(raw);
    let amount_digits = trim(raw_amount);
    let ghost n = signed_value(negative, digits@);
    let ghost s = signed_value(backward, amount_digits@);
    let length: usize = digits.len();
    proof {
        lemma2_to64();
        lemma_magnitude_bounds(digits@);
        lemma_magnitude_bounds(amount_digits@);
        lemma_digit_weight_pow2(length as nat);
        if s >= 0 {
            lemma_pow2_pos(s as nat);
        } else {
            lemma_pow2_pos((-s) as nat);
        }
    }
    if length == 0 {
        proof {
            assert(n == 0);
            if s >= 0 {
                assert(0 * pow2(s as nat) == 0) by (nonlinear_arith);
            } else {
                lemma_small_quotient(0, pow2((-s) as nat) as int);
            }
        }
        return Ok(Term::SmallInteger(0));
    }
    proof {
        assert(magnitude(digits@) >= digit_weight((length - 1) as nat));
        crate::integer::lemma_digit_weight_positive((length - 1) as nat);
        assert(n != 0);
    }
    let beyond: bool = amount_digits.len() > 4;
    proof {
        if beyond {
            reveal_with_fuel(digit_weight, 5);
            lemma_digit_weight_grows(4, (amount_digits@.len() - 1) as nat);
            assert(magnitude(amount_digits@) >= 340282366920938463463374607431768211456);
        }
    }
    let amount: u128 = if beyond {
        0
    } else {
        magnitude_of_four(amount_digits.as_slice())
    };
    if !backward || (!beyond && amount == 0) {
        if beyond || amount > MAX_SHIFT as u128 {
            return Err(Exception::Alloc);
        }
        if amount >= 64 && amount / 64 + 2 > heap.available() as u128 {
            proof {
                lemma_shift_takes_room(n, amount as nat);
            }
            return Err(Exception::Alloc);
        }
        let output = big_shl(negative, digits.as_slice(), amount as usize);
        return match heap.integer_from_digits(output.0, output.1) {
            Ok(term) => Ok(term),
            Err(_) => Err(Exception::Alloc),
        };
    }
    if beyond || amount >= 32 * (length as u128) {
        proof {
            let back = (-s) as nat;
            if 32 * length < back {
                lemma_pow2_strictly_increases(32 * (length as nat), back);
            }
            lemma_small_quotient(n, pow2(back) as int);
        }
        return Ok(
            Term::SmallInteger(
                if negative {
                    -1
                } else {
                    0
                },
            ),
        );
    }
    let output = shift_right(negative, digits, amount);
    match heap.integer_from_digits(output.0, output.1) {
        Ok(term) => Ok(term),
        Err(_) => Err(Exception::Alloc),
    }
}

} // verus!
