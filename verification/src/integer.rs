//! Integers: small ones are immediates, the others live in a cell as a sign
//! and a magnitude.

use vstd::prelude::*;
use vstd::arithmetic::div_mod::{lemma_fundamental_div_mod, lemma_fundamental_div_mod_converse};
use vstd::arithmetic::power2::{lemma2_to64, lemma_pow2_adds, pow2};
use crate::bigint::big_order;
use crate::heap::{cell_ok, magnitude, signed_value, trimmed, Alloc, Heap, Object};
use crate::term::{Term, MAX_SMALL_INTEGER, MIN_SMALL_INTEGER};
use crate::value::{int_order, Order, Value};

verus! {

/// The weight of the digit at `position`: 2 to the power 32 times `position`.
pub open spec fn digit_weight(position: nat) -> nat
    decreases position,
{
    if position == 0 {
        1
    } else {
        4294967296 * digit_weight((position - 1) as nat)
    }
}

/// A digit put after the others adds its value times its weight.
pub proof fn lemma_magnitude_push(digits: Seq<u32>, d: u32)
    ensures
        magnitude(digits.push(d)) == magnitude(digits) + d * digit_weight(digits.len()),
    decreases digits.len(),
{
    let pushed = digits.push(d);
    if digits.len() == 0 {
        assert(pushed.drop_first() =~= Seq::<u32>::empty());
        assert(magnitude(pushed.drop_first()) == 0);
        assert(pushed[0] == d);
        assert(magnitude(pushed) == d as nat + 4294967296 * magnitude(pushed.drop_first()));
        assert(magnitude(digits) == 0);
        assert(digit_weight(0) == 1);
        assert(d * digit_weight(0) == d) by (nonlinear_arith)
            requires
                digit_weight(0) == 1,
        ;
    } else {
        let rest = digits.drop_first();
        lemma_magnitude_push(rest, d);
        assert(pushed.drop_first() =~= rest.push(d));
        assert(pushed[0] == digits[0]);
        let w = digit_weight(rest.len());
        assert(digit_weight(digits.len()) == 4294967296 * w);
        assert(magnitude(pushed) == digits[0] as nat + 4294967296 * magnitude(rest.push(d)));
        assert(magnitude(digits) == digits[0] as nat + 4294967296 * magnitude(rest));
        assert(4294967296 * (magnitude(rest) + d * w) == 4294967296 * magnitude(rest) + d * (
        4294967296 * w)) by (nonlinear_arith);
    }
}

/// The weight of a digit is positive.
pub proof fn lemma_digit_weight_positive(position: nat)
    ensures
        digit_weight(position) >= 1,
    decreases position,
{
    if position > 0 {
        lemma_digit_weight_positive((position - 1) as nat);
    }
}

/// The digits of a magnitude, without zeros at the high end.
pub fn digits_from_u128(m: u128) -> (r: Vec<u32>)
    ensures
        magnitude(r@) == m,
        trimmed(r@),
        r@.len() <= 4,
{
    let mut out: Vec<u32> = Vec::new();
    let mut rest: u128 = m;
    let ghost mut weight: nat = 1;
    while rest > 0
        invariant
            weight == digit_weight(out@.len() as nat),
            magnitude(out@) + rest * weight == m,
            rest == 0 ==> trimmed(out@),
            out@.len() <= 4,
            out@.len() == 4 ==> rest == 0,
            out@.len() == 3 ==> rest < 4294967296,
            out@.len() == 2 ==> rest < 18446744073709551616,
            out@.len() == 1 ==> rest < 79228162514264337593543950336,
        decreases rest,
    {
        let d: u32 = (rest % 4294967296) as u32;
        let next: u128 = rest / 4294967296;
        proof {
            lemma_magnitude_push(out@, d);
            assert(rest == next * 4294967296 + d);
            assert((next * 4294967296 + d) * weight == next * (4294967296 * weight) + d * weight)
                by (nonlinear_arith);
            assert(digit_weight((out@.len() + 1) as nat) == 4294967296 * weight);
            weight = 4294967296 * weight;
        }
        out.push(d);
        rest = next;
    }
    out
}

/// The magnitude of at most two digits.
pub fn magnitude_of_two(digits: &[u32]) -> (r: u64)
    requires
        digits@.len() <= 2,
    ensures
        r == magnitude(digits@),
{
    proof {
        reveal_with_fuel(magnitude, 3);
        if digits@.len() == 2 {
            assert(digits@.drop_first().len() == 1);
            assert(digits@.drop_first()[0] == digits@[1]);
            assert(digits@.drop_first().drop_first().len() == 0);
        } else if digits@.len() == 1 {
            assert(digits@.drop_first().len() == 0);
        }
    }
    if digits.len() == 0 {
        0
    } else if digits.len() == 1 {
        digits[0] as u64
    } else {
        digits[0] as u64 + 4294967296 * (digits[1] as u64)
    }
}

/// A magnitude of three digits or more, the last one not zero, is at least
/// 2 to the power 64.
pub proof fn lemma_long_magnitude(digits: Seq<u32>)
    requires
        digits.len() >= 3,
        digits.last() != 0,
    ensures
        magnitude(digits) >= 18446744073709551616,
    decreases digits.len(),
{
    let front = digits.drop_last();
    assert(front.push(digits.last()) =~= digits);
    lemma_magnitude_push(front, digits.last());
    let w = digit_weight(front.len());
    assert(w >= 18446744073709551616) by {
        reveal_with_fuel(digit_weight, 3);
        lemma_digit_weight_positive((front.len() - 2) as nat);
        let v = digit_weight((front.len() - 2) as nat);
        assert(digit_weight((front.len() - 1) as nat) == 4294967296 * v);
        assert(w == 4294967296 * (4294967296 * v));
        assert(4294967296 * (4294967296 * v) >= 18446744073709551616) by (nonlinear_arith)
            requires
                v >= 1,
        ;
    }
    assert(digits.last() * w >= w) by (nonlinear_arith)
        requires
            digits.last() >= 1,
            w >= 0,
    ;
}

/// The digits without the zeros at their high end.
pub fn trim(digits: Vec<u32>) -> (r: Vec<u32>)
    ensures
        magnitude(r@) == magnitude(digits@),
        trimmed(r@),
        r@.len() <= digits@.len(),
{
    let mut out = digits;
    while out.len() > 0 && out[out.len() - 1] == 0
        invariant
            magnitude(out@) == magnitude(digits@),
            out@.len() <= digits@.len(),
        decreases out@.len(),
    {
        proof {
            let front = out@.drop_last();
            assert(front.push(0u32) =~= out@);
            lemma_magnitude_push(front, 0u32);
        }
        out.pop();
    }
    out
}

/// The integer as an immediate, if it is within the immediate range.
pub fn small_from_digits(negative: bool, digits: &[u32]) -> (r: Option<i64>)
    requires
        trimmed(digits@),
    ensures
        r == (if MIN_SMALL_INTEGER <= signed_value(negative, digits@) <= MAX_SMALL_INTEGER {
            Some(signed_value(negative, digits@) as i64)
        } else {
            None
        }),
{
    if digits.len() > 2 {
        proof {
            lemma_long_magnitude(digits@);
        }
        return None;
    }
    let m: u64 = magnitude_of_two(digits);
    if negative {
        if m <= 576460752303423488 {
            Some(-(m as i64))
        } else {
            None
        }
    } else {
        if m <= 576460752303423487 {
            Some(m as i64)
        } else {
            None
        }
    }
}

/// The value of an integer term, or 0 for any other value.
pub open spec fn integer_of(v: Value) -> int {
    match v {
        Value::Integer(n) => n,
        _ => 0,
    }
}

impl Heap {
    /// The integer with this sign and this magnitude: an immediate if it is
    /// within the immediate range, else a cell.
    pub fn integer_from_digits(&mut self, negative: bool, digits: Vec<u32>) -> (r: Result<
        Term,
        Alloc,
    >)
        requires
            old(self).wf(),
        ensures
            final(self).wf(),
            final(self).extends(old(self)),
            r is Ok ==> {
                &&& final(self).contains(r->Ok_0)
                &&& final(self).value(r->Ok_0) == Value::Integer(signed_value(negative, digits@))
                &&& (r->Ok_0 is SmallInteger) == (MIN_SMALL_INTEGER <= signed_value(
                    negative,
                    digits@,
                ) <= MAX_SMALL_INTEGER)
                &&& r->Ok_0 is SmallInteger ==> *final(self) == *old(self)
            },
            r is Ok <==> crate::copy::integer_words(signed_value(negative, digits@)) <= old(
                self,
            ).spare(),
            r is Ok ==> final(self).used == old(self).used + crate::copy::integer_words(
                signed_value(negative, digits@),
            ),
            r is Err ==> *final(self) == *old(self),
    {
        let canonical = trim(digits);
        proof {
            crate::copy::lemma_digit_count(canonical@);
        }
        match small_from_digits(negative, canonical.as_slice()) {
            Some(n) => Ok(Term::SmallInteger(n)),
            None => {
                match self.allocate(Object::BigInteger(negative, canonical)) {
                    Ok(index) => Ok(Term::Boxed(index)),
                    Err(e) => Err(e),
                }
            },
        }
    }

    /// The integer `value` as a term.
    pub fn integer(&mut self, value: i128) -> (r: Result<Term, Alloc>)
        requires
            old(self).wf(),
        ensures
            final(self).wf(),
            final(self).extends(old(self)),
            r is Ok ==> {
                &&& final(self).contains(r->Ok_0)
                &&& final(self).value(r->Ok_0) == Value::Integer(value as int)
                &&& (r->Ok_0 is SmallInteger) == (MIN_SMALL_INTEGER <= value <= MAX_SMALL_INTEGER)
                &&& r->Ok_0 is SmallInteger ==> *final(self) == *old(self)
            },
            r is Ok <==> crate::copy::integer_words(value as int) <= old(self).spare(),
            r is Ok ==> final(self).used == old(self).used + crate::copy::integer_words(
                value as int,
            ),
            r is Err ==> *final(self) == *old(self),
    {
        if value >= MIN_SMALL_INTEGER as i128 && value <= MAX_SMALL_INTEGER as i128 {
            return Ok(Term::SmallInteger(value as i64));
        }
        let negative: bool = value < 0;
        let m: u128 = if negative {
            ((-(value + 1)) as u128) + 1
        } else {
            value as u128
        };
        let digits = digits_from_u128(m);
        self.integer_from_digits(negative, digits)
    }

    /// The sign and the digits of an integer term; `None` for any other
    /// term.
    pub fn integer_digits(&self, t: Term) -> (r: Option<(bool, Vec<u32>)>)
        requires
            self.wf(),
            self.contains(t),
        ensures
            r is Some <==> self.value(t) is Integer,
            r is Some ==> signed_value(r->Some_0.0, r->Some_0.1@) == integer_of(self.value(t)),
    {
        match t {
            Term::SmallInteger(n) => {
                let negative: bool = n < 0;
                let m: u128 = if negative {
                    ((-(n + 1)) as u128) + 1
                } else {
                    n as u128
                };
                Some((negative, digits_from_u128(m)))
            },
            Term::Boxed(p) => {
                proof {
                    assert(cell_ok(self.objects@, self.values@, self.names@, p as int));
                }
                match &self.objects[p] {
                    Object::BigInteger(negative, digits) => {
                        let mut copy: Vec<u32> = Vec::new();
                        let mut i: usize = 0;
                        while i < digits.len()
                            invariant
                                0 <= i <= digits@.len(),
                                copy@ == digits@.subrange(0, i as int),
                            decreases digits@.len() - i,
                        {
                            copy.push(digits[i]);
                            assert(copy@ =~= digits@.subrange(0, i + 1));
                            i += 1;
                        }
                        assert(digits@.subrange(0, digits@.len() as int) =~= digits@);
                        Some((*negative, copy))
                    },
                    _ => None,
                }
            },
            Term::List(p) => {
                proof {
                    assert(cell_ok(self.objects@, self.values@, self.names@, p as int));
                }
                None
            },
            _ => None,
        }
    }

    /// The order of two integer terms by value.
    pub fn integer_order(&self, a: Term, b: Term) -> (r: Order)
        requires
            self.wf(),
            self.contains(a),
            self.contains(b),
            self.value(a) is Integer,
            self.value(b) is Integer,
        ensures
            r == int_order(integer_of(self.value(a)), integer_of(self.value(b))),
    {
        match (a, b) {
            (Term::SmallInteger(x), Term::SmallInteger(y)) => {
                if x < y {
                    Order::Less
                } else if x == y {
                    Order::Equal
                } else {
                    Order::Greater
                }
            },
            _ => {
                let x = self.integer_digits(a);
                let y = self.integer_digits(b);
                match (x, y) {
                    (Some((xn, xd)), Some((yn, yd))) => big_order(
                        xn,
                        xd.as_slice(),
                        yn,
                        yd.as_slice(),
                    ),
                    _ => Order::Equal,
                }
            },
        }
    }

    /// The integer that a term stands for, if it is an integer that fits 64
    /// bits.
    pub fn integer_to_i64(&self, t: Term) -> (r: Option<i64>)
        requires
            self.wf(),
            self.contains(t),
        ensures
            r is Some <==> self.value(t) is Integer && i64::MIN <= integer_of(self.value(t))
                <= i64::MAX,
            r is Some ==> r->Some_0 == integer_of(self.value(t)),
    {
        match t {
            Term::SmallInteger(n) => Some(n),
            _ => {
                match self.integer_digits(t) {
                    None => None,
                    Some((negative, digits)) => {
                        let short = trim(digits);
                        if short.len() > 2 {
                            proof {
                                lemma_long_magnitude(short@);
                            }
                            return None;
                        }
                        let m: u64 = magnitude_of_two(short.as_slice());
                        if negative {
                            if m <= 9223372036854775808 {
                                Some((-(m as i128)) as i64)
                            } else {
                                None
                            }
                        } else {
                            if m <= 9223372036854775807 {
                                Some(m as i64)
                            } else {
                                None
                            }
                        }
                    },
                }
            },
        }
    }
}

/// A magnitude is below the weight of the digit after its last, and with
/// a last digit that is not zero it is at least the weight of that digit.
pub proof fn lemma_magnitude_bounds(digits: Seq<u32>)
    ensures
        magnitude(digits) < digit_weight(digits.len()),
        digits.len() > 0 && digits.last() != 0 ==> magnitude(digits) >= digit_weight(
            (digits.len() - 1) as nat,
        ),
    decreases digits.len(),
{
    if digits.len() > 0 {
        let front = digits.drop_last();
        let d = digits.last();
        assert(front.push(d) =~= digits);
        lemma_magnitude_push(front, d);
        lemma_magnitude_bounds(front);
        let w = digit_weight(front.len());
        let m = magnitude(front);
        assert(digit_weight(digits.len()) == 4294967296 * w);
        assert(m + d * w < 4294967296 * w) by (nonlinear_arith)
            requires
                m < w,
                d <= 4294967295,
        ;
        if d != 0 {
            assert(m + d * w >= w) by (nonlinear_arith)
                requires
                    m >= 0,
                    w >= 0,
                    d >= 1,
            ;
        }
    } else {
        assert(digit_weight(0) == 1);
    }
}

/// A later digit weighs no less than an earlier one.
pub proof fn lemma_digit_weight_grows(earlier: nat, later: nat)
    requires
        earlier <= later,
    ensures
        digit_weight(earlier) <= digit_weight(later),
    decreases later,
{
    if earlier < later {
        lemma_digit_weight_grows(earlier, (later - 1) as nat);
        lemma_digit_weight_positive((later - 1) as nat);
    }
}

/// The weight of a digit is a power of two.
pub proof fn lemma_digit_weight_pow2(position: nat)
    ensures
        digit_weight(position) == pow2(32 * position),
    decreases position,
{
    lemma2_to64();
    if position > 0 {
        lemma_digit_weight_pow2((position - 1) as nat);
        lemma_pow2_adds(32, 32 * ((position - 1) as nat));
        assert(32 + 32 * ((position - 1) as nat) == 32 * position);
    }
}

/// A magnitude that is at least the weight of a digit has more digits than
/// stand before that digit.
pub proof fn lemma_digit_count_at_least(m: nat, position: nat)
    requires
        m >= digit_weight(position),
    ensures
        crate::copy::digit_count(m) >= position + 1,
    decreases position,
{
    lemma_digit_weight_positive(position);
    if position > 0 {
        let w = digit_weight((position - 1) as nat);
        assert(m / 4294967296 >= w) by (nonlinear_arith)
            requires
                m >= 4294967296 * w,
        ;
        lemma_digit_count_at_least(m / 4294967296, (position - 1) as nat);
    }
}

/// An integer divided by a positive integer that is greater than its
/// magnitude gives 0, or -1 if it is negative.
pub proof fn lemma_small_quotient(n: int, p: int)
    requires
        -p <= n < p,
    ensures
        n / p == (if n < 0 {
            -1int
        } else {
            0int
        }),
{
    if n < 0 {
        lemma_fundamental_div_mod_converse(n, p, -1, n + p);
    } else {
        lemma_fundamental_div_mod_converse(n, p, 0, n);
    }
}

/// To divide by one positive integer and then by another is to divide by
/// their product.
pub proof fn lemma_divided_twice(x: int, c: int, d: int)
    requires
        c > 0,
        d > 0,
    ensures
        c * d > 0,
        (x / c) / d == x / (c * d),
{
    let q = x / c;
    let r = x % c;
    let q2 = q / d;
    let r2 = q % d;
    lemma_fundamental_div_mod(x, c);
    lemma_fundamental_div_mod(q, d);
    assert(0 <= r < c);
    assert(0 <= r2 < d);
    assert(c * d > 0) by (nonlinear_arith)
        requires
            c > 0,
            d > 0,
    ;
    assert(0 <= c * r2 + r < c * d) by (nonlinear_arith)
        requires
            0 <= r < c,
            0 <= r2 < d,
    ;
    assert(x == q2 * (c * d) + (c * r2 + r)) by (nonlinear_arith)
        requires
            x == c * q + r,
            q == d * q2 + r2,
    ;
    lemma_fundamental_div_mod_converse(x, c * d, q2, c * r2 + r);
}

/// The magnitude of at most four digits.
pub fn magnitude_of_four(digits: &[u32]) -> (r: u128)
    requires
        digits@.len() <= 4,
    ensures
        r == magnitude(digits@),
{
    proof {
        reveal_with_fuel(magnitude, 5);
        let a = digits@;
        if a.len() >= 1 {
            let b = a.drop_first();
            if b.len() >= 1 {
                assert(b[0] == a[1]);
                let c = b.drop_first();
                if c.len() >= 1 {
                    assert(c[0] == a[2]);
                    let e = c.drop_first();
                    if e.len() >= 1 {
                        assert(e[0] == a[3]);
                        assert(e.drop_first().len() == 0);
                    }
                }
            }
        }
    }
    let n: usize = digits.len();
    let mut r: u128 = 0;
    if n >= 4 {
        r = 79228162514264337593543950336 * (digits[3] as u128);
    }
    if n >= 3 {
        r = r + 18446744073709551616 * (digits[2] as u128);
    }
    if n >= 2 {
        r = r + 4294967296 * (digits[1] as u128);
    }
    if n >= 1 {
        r = r + digits[0] as u128;
    }
    r
}

/// An integer of 64 bits is small or takes two words.
pub proof fn lemma_words_of_u64(n: u64)
    ensures
        crate::copy::integer_words(n as int) == (if n <= MAX_SMALL_INTEGER {
            0nat
        } else {
            2nat
        }),
{
    reveal_with_fuel(crate::copy::digit_count, 4);
    let m = n as nat;
    if m > MAX_SMALL_INTEGER {
        assert(m / 4294967296 != 0);
        assert((m / 4294967296) / 4294967296 == 0);
    }
}

/// The words that an integer of 64 bits takes on a heap.
pub fn words_of_u64(n: u64) -> (r: usize)
    ensures
        r == crate::copy::integer_words(n as int),
{
    proof {
        lemma_words_of_u64(n);
    }
    if n <= MAX_SMALL_INTEGER as u64 {
        0
    } else {
        2
    }
}

} // verus!