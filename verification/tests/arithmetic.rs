use lumen_runtime::atom::AtomTable;
use lumen_runtime::erlang::{and_2, bnot_1, bsl_2, div_2, not_1, or_2, orelse_2, subtract_2};
use lumen_runtime::exception::Exception;
use lumen_runtime::heap::{Heap, Object};
use lumen_runtime::term::{Term, MAX_SMALL_INTEGER, MIN_SMALL_INTEGER};
use lumen_runtime::value::Order;
use num_bigint::BigInt;
use num_traits::Num;

fn with_process<F: FnOnce(&mut Heap)>(f: F) {
    let mut heap = Heap::new(1024);
    f(&mut heap);
}

fn big_int(heap: &Heap, term: Term) -> BigInt {
    match term {
        Term::SmallInteger(n) => BigInt::from(n),
        Term::Boxed(p) => match heap.object(p) {
            Object::BigInteger(negative, digits) => BigInt::new(
                if *negative { num_bigint::Sign::Minus } else { num_bigint::Sign::Plus },
                digits.clone(),
            ),
            _ => panic!("not an integer"),
        },
        _ => panic!("not an integer"),
    }
}

#[test]
fn with_negative_without_underflow_shifts_right() {
    with_process(|process| {
        let integer = process.integer(0b101100111000).unwrap();
        let shift = process.integer(-9).unwrap();

        assert_eq!(bsl_2::result(process, integer, shift), Ok(process.integer(0b101).unwrap()));
    });
}

#[test]
fn with_negative_with_underflow_returns_zero() {
    with_process(|process| {
        let integer = process.integer(0b101100111000).unwrap();
        let shift = process.integer(-12).unwrap();

        assert_eq!(bsl_2::result(process, integer, shift), Ok(process.integer(0b0).unwrap()));
    });
}

#[test]
fn with_positive_without_overflow_returns_small_integer() {
    with_process(|process| {
        let integer = process.integer(0b1).unwrap();
        let shift = process.integer(1).unwrap();

        let result = bsl_2::result(process, integer, shift);

        assert!(result.is_ok());

        let shifted = result.unwrap();

        assert!(matches!(shifted, Term::SmallInteger(_)));
        assert_eq!(shifted, process.integer(0b10).unwrap());
    })
}

#[test]
fn with_positive_with_overflow_returns_big_integer() {
    with_process(|process| {
        let integer = process.integer(0b1).unwrap();
        let shift = process.integer(64).unwrap();

        let result = bsl_2::result(process, integer, shift);

        assert!(result.is_ok());

        let shifted = result.unwrap();

        assert!(matches!(shifted, Term::Boxed(_)));

        assert_eq!(
            big_int(process, shifted),
            <BigInt as Num>::from_str_radix("18446744073709551616", 10).unwrap()
        );
    });
}

#[test]
fn bsl_of_a_negative_integer_to_the_right_rounds_down() {
    with_process(|process| {
        let shifted = bsl_2::result(process, Term::SmallInteger(-5), Term::SmallInteger(-1));
        assert_eq!(shifted, Ok(Term::SmallInteger(-3)));
        let atoms = AtomTable::new();
        assert_eq!(
            bsl_2::result(process, Term::Atom(0), Term::SmallInteger(1)),
            Err(Exception::Badarith)
        );
        assert_eq!(
            bsl_2::result(process, Term::SmallInteger(1), Term::SmallInteger(bsl_2::MAX_SHIFT + 1)),
            Err(Exception::Alloc)
        );
        assert_eq!(atoms.len(), lumen_runtime::atom::PREDEFINED_ATOMS);
    });
}

#[test]
fn with_small_integer_divisor_returns_small_integer() {
    with_process(|process| {
        let dividends = [MIN_SMALL_INTEGER, -7, -1, 0, 1, 7, 100, MAX_SMALL_INTEGER];
        let divisors = [MIN_SMALL_INTEGER, -3, -1, 1, 2, 3, MAX_SMALL_INTEGER];
        for dividend in dividends {
            for divisor in divisors {
                let left = process.integer(dividend as i128).unwrap();
                let right = process.integer(divisor as i128).unwrap();
                let quotient = div_2::result(process, left, right).unwrap();
                assert_eq!(
                    big_int(process, quotient),
                    BigInt::from((dividend as i128) / (divisor as i128))
                );
            }
        }
    });
}

#[test]
fn with_big_integer_divisor_returns_zero() {
    with_process(|process| {
        let divisor = process.integer(MAX_SMALL_INTEGER as i128 + 2).unwrap();
        let negative_divisor = process.integer(MIN_SMALL_INTEGER as i128 - 1).unwrap();
        for dividend in [MIN_SMALL_INTEGER, -1, 0, 1, MAX_SMALL_INTEGER] {
            let dividend = process.integer(dividend as i128).unwrap();
            assert_eq!(div_2::result(process, dividend, divisor), Ok(process.integer(0).unwrap()));
            assert_eq!(
                div_2::result(process, dividend, negative_divisor),
                Ok(process.integer(0).unwrap())
            );
        }
    });
}

#[test]
fn div_by_zero_is_an_arithmetic_error() {
    with_process(|process| {
        assert_eq!(
            div_2::result(process, Term::SmallInteger(1), Term::SmallInteger(0)),
            Err(Exception::Badarith)
        );
        assert_eq!(
            div_2::result(process, Term::Nil, Term::SmallInteger(1)),
            Err(Exception::Badarith)
        );
        assert_eq!(
            div_2::result(process, Term::SmallInteger(-7), Term::SmallInteger(2)),
            Ok(Term::SmallInteger(-3))
        );
        // the smallest small integer by the smallest big one
        let edge = process.integer(MAX_SMALL_INTEGER as i128 + 1).unwrap();
        assert_eq!(
            div_2::result(process, Term::SmallInteger(MIN_SMALL_INTEGER), edge),
            Ok(Term::SmallInteger(-1))
        );
    });
}

#[test]
fn bnot_inverts_small_and_big_integers() {
    with_process(|process| {
        assert_eq!(bnot_1::result(process, Term::SmallInteger(5)), Ok(Term::SmallInteger(-6)));
        assert_eq!(bnot_1::result(process, Term::SmallInteger(-1)), Ok(Term::SmallInteger(0)));
        assert_eq!(
            bnot_1::result(process, Term::SmallInteger(MIN_SMALL_INTEGER)),
            Ok(Term::SmallInteger(MAX_SMALL_INTEGER))
        );
        let big = process.integer(1i128 << 70).unwrap();
        let inverted = bnot_1::result(process, big).unwrap();
        assert_eq!(big_int(process, inverted), -(BigInt::from(1i128 << 70)) - 1);
        let edge = process.integer(MIN_SMALL_INTEGER as i128 - 1).unwrap();
        assert!(matches!(edge, Term::Boxed(_)));
        let inverted = bnot_1::result(process, edge).unwrap();
        assert_eq!(big_int(process, inverted), BigInt::from(MAX_SMALL_INTEGER) + 1);
        assert_eq!(bnot_1::result(process, Term::Nil), Err(Exception::Badarith));
    });
}

#[test]
fn subtract_crosses_between_small_and_big() {
    with_process(|process| {
        assert_eq!(
            subtract_2::result(process, Term::SmallInteger(7), Term::SmallInteger(9)),
            Ok(Term::SmallInteger(-2))
        );
        let over = subtract_2::result(
            process,
            Term::SmallInteger(MAX_SMALL_INTEGER),
            Term::SmallInteger(-1),
        )
        .unwrap();
        assert!(matches!(over, Term::Boxed(_)));
        assert_eq!(big_int(process, over), BigInt::from(MAX_SMALL_INTEGER) + 1);
        let back = subtract_2::result(process, over, Term::SmallInteger(1)).unwrap();
        assert_eq!(back, Term::SmallInteger(MAX_SMALL_INTEGER));
        assert_eq!(
            subtract_2::result(process, Term::Atom(0), Term::SmallInteger(1)),
            Err(Exception::Badarith)
        );
        // an integer that does not fit and a heap without room
        let mut full = Heap::new(0);
        assert_eq!(
            subtract_2::result(&mut full, Term::SmallInteger(MAX_SMALL_INTEGER), Term::SmallInteger(-1)),
            Err(Exception::Alloc)
        );
    });
}

#[test]
fn integers_compare_by_value_across_representations() {
    with_process(|process| {
        let atoms = AtomTable::new();
        let big = process.integer(1i128 << 64).unwrap();
        let bigger = process.integer((1i128 << 64) + 1).unwrap();
        let negative = process.integer(-(1i128 << 64)).unwrap();
        assert_eq!(process.compare(&atoms, big, bigger), Order::Less);
        assert_eq!(process.compare(&atoms, bigger, big), Order::Greater);
        assert_eq!(process.compare(&atoms, big, big), Order::Equal);
        assert_eq!(process.compare(&atoms, negative, Term::SmallInteger(0)), Order::Less);
        assert_eq!(process.compare(&atoms, Term::SmallInteger(5), big), Order::Less);
    });
}

#[test]
fn with_false_right_returns_false() {
    assert_eq!(
        or_2::result(Term::from_bool(false), Term::from_bool(false)),
        Ok(Term::from_bool(false))
    );
}

#[test]
fn with_true_right_returns_true() {
    assert_eq!(
        or_2::result(Term::from_bool(false), Term::from_bool(true)),
        Ok(Term::from_bool(true))
    );
}

#[test]
fn boolean_operators_want_booleans() {
    let t = Term::from_bool(true);
    let f = Term::from_bool(false);
    assert_eq!(and_2::result(t, t), Ok(t));
    assert_eq!(and_2::result(t, f), Ok(f));
    assert_eq!(and_2::result(f, Term::Nil), Err(Exception::Badarg));
    assert_eq!(or_2::result(t, Term::SmallInteger(1)), Err(Exception::Badarg));
    assert_eq!(not_1::result(t), Ok(f));
    assert_eq!(not_1::result(f), Ok(t));
    assert_eq!(not_1::result(Term::Nil), Err(Exception::Badarg));
    assert_eq!(orelse_2::result(t, Term::Nil), Ok(t));
    assert_eq!(orelse_2::result(f, Term::Nil), Ok(Term::Nil));
    assert_eq!(orelse_2::result(Term::Nil, t), Err(Exception::Badarg));
    assert_eq!(t.to_bool(), Some(true));
    assert_eq!(Term::Nil.to_bool(), None);
}

#[test]
fn big_arithmetic_agrees_with_machine_arithmetic() {
    with_process(|process| {
        let atoms = AtomTable::new();
        let values: [i128; 12] = [
            0,
            1,
            -1,
            255,
            -256,
            (1 << 59) - 1,
            -(1 << 59),
            1 << 59,
            -(1 << 59) - 1,
            (1 << 64) + 12345,
            -(1 << 70) - 1,
            (1 << 100) + (1 << 33) + 7,
        ];
        for a in values {
            for b in values {
                let mut heap = Heap::new(4096);
                let x = heap.integer(a).unwrap();
                let y = heap.integer(b).unwrap();
                let difference = subtract_2::result(&mut heap, x, y).unwrap();
                assert_eq!(big_int(&heap, difference), BigInt::from(a - b));
                assert_eq!(
                    heap.compare(&atoms, x, y),
                    match a.cmp(&b) {
                        std::cmp::Ordering::Less => Order::Less,
                        std::cmp::Ordering::Equal => Order::Equal,
                        std::cmp::Ordering::Greater => Order::Greater,
                    }
                );
                if b != 0 {
                    let quotient = div_2::result(&mut heap, x, y).unwrap();
                    assert_eq!(big_int(&heap, quotient), BigInt::from(a / b));
                } else {
                    assert_eq!(div_2::result(&mut heap, x, y), Err(Exception::Badarith));
                }
            }
            let mut heap = Heap::new(4096);
            let x = heap.integer(a).unwrap();
            let inverted = bnot_1::result(&mut heap, x).unwrap();
            assert_eq!(big_int(&heap, inverted), BigInt::from(!a));
            for shift in [0i64, 1, 7, 20, -1, -3, -60, -200] {
                let shifted = bsl_2::result(&mut heap, x, Term::SmallInteger(shift)).unwrap();
                let expected = if shift >= 0 {
                    BigInt::from(a) << (shift as usize)
                } else if -shift >= 127 {
                    BigInt::from(if a < 0 { -1 } else { 0 })
                } else {
                    BigInt::from(a >> ((-shift) as u32))
                };
                assert_eq!(big_int(&heap, shifted), expected);
            }
        }
        assert_eq!(process.used(), 0);
    });
}

#[test]
fn zero_is_shifted_by_any_number_of_bits() {
    let mut heap = Heap::new(8);
    let huge = heap.integer(1i128 << 100).unwrap();
    let far_back = heap.integer(-(1i128 << 100)).unwrap();
    let used = heap.used();
    for shift in [Term::SmallInteger(2_000_000), Term::SmallInteger(bsl_2::MAX_SHIFT + 1), huge, far_back]
    {
        assert_eq!(bsl_2::result(&mut heap, Term::SmallInteger(0), shift), Ok(Term::SmallInteger(0)));
    }
    assert_eq!(heap.used(), used);
}

#[test]
fn a_shift_to_the_right_of_any_length_needs_no_room() {
    let mut heap = Heap::new(16);
    let large = heap.integer(1i128 << 90).unwrap();
    let negative = heap.integer(-(1i128 << 90)).unwrap();
    let far_back = heap.integer(-(1i128 << 100)).unwrap();
    let spare = heap.available();
    heap.reserve(spare).unwrap();
    for shift in [
        Term::SmallInteger(-91),
        Term::SmallInteger(-2_000_000),
        Term::SmallInteger(MIN_SMALL_INTEGER),
        far_back,
    ] {
        assert_eq!(bsl_2::result(&mut heap, large, shift), Ok(Term::SmallInteger(0)));
        assert_eq!(bsl_2::result(&mut heap, negative, shift), Ok(Term::SmallInteger(-1)));
        assert_eq!(bsl_2::result(&mut heap, Term::SmallInteger(-5), shift), Ok(Term::SmallInteger(-1)));
        assert_eq!(bsl_2::result(&mut heap, Term::SmallInteger(5), shift), Ok(Term::SmallInteger(0)));
    }
    // within the digits the integer is divided, rounding down
    assert_eq!(bsl_2::result(&mut heap, large, Term::SmallInteger(-88)), Ok(Term::SmallInteger(4)));
    assert_eq!(
        bsl_2::result(&mut heap, negative, Term::SmallInteger(-90)),
        Ok(Term::SmallInteger(-1))
    );
    assert_eq!(
        bsl_2::result(&mut heap, negative, Term::SmallInteger(-89)),
        Ok(Term::SmallInteger(-2))
    );
    let odd = bsl_2::result(&mut heap, Term::SmallInteger(-(1 << 40) - 1), Term::SmallInteger(-33));
    assert_eq!(odd, Ok(Term::SmallInteger(-129)));
}

#[test]
fn a_shift_to_the_left_takes_the_room_of_its_result() {
    let mut heap = Heap::new(4);
    // 2 to the power 64 has three digits: a cell of three words
    let shifted = bsl_2::result(&mut heap, Term::SmallInteger(1), Term::SmallInteger(64)).unwrap();
    assert_eq!(heap.used(), 3);
    assert_eq!(big_int(&heap, shifted), BigInt::from(1u8) << 64usize);
    // the next one has no room, whatever its length
    assert_eq!(
        bsl_2::result(&mut heap, Term::SmallInteger(1), Term::SmallInteger(64)),
        Err(Exception::Alloc)
    );
    assert_eq!(
        bsl_2::result(&mut heap, Term::SmallInteger(-1), Term::SmallInteger(1_000_000_000)),
        Err(Exception::Alloc)
    );
    assert_eq!(
        bsl_2::result(&mut heap, Term::SmallInteger(1), shifted),
        Err(Exception::Alloc)
    );
    assert_eq!(heap.used(), 3);
    // a small result needs none
    assert_eq!(
        bsl_2::result(&mut heap, Term::SmallInteger(3), Term::SmallInteger(4)),
        Ok(Term::SmallInteger(48))
    );
    // beyond a million bits there is room in a heap that is large enough
    let mut large = Heap::new(40_000);
    let wide = bsl_2::result(&mut large, Term::SmallInteger(-3), Term::SmallInteger(2_000_000)).unwrap();
    assert_eq!(big_int(&large, wide), BigInt::from(-3) << 2_000_000usize);
    assert_eq!(large.used(), 1 + (62_501 + 1) / 2);
}

#[test]
fn each_arithmetic_result_takes_the_words_of_its_integer() {
    let mut heap = Heap::new(64);
    let before = heap.used();
    let least = bnot_1::result(&mut heap, Term::SmallInteger(MAX_SMALL_INTEGER)).unwrap();
    assert_eq!(least, Term::SmallInteger(MIN_SMALL_INTEGER));
    assert_eq!(heap.used(), before);
    let below =
        subtract_2::result(&mut heap, Term::SmallInteger(MIN_SMALL_INTEGER), Term::SmallInteger(1))
            .unwrap();
    assert!(matches!(below, Term::Boxed(_)));
    assert_eq!(heap.used(), before + 2);
    let back = bnot_1::result(&mut heap, below).unwrap();
    assert_eq!(big_int(&heap, back), BigInt::from(MAX_SMALL_INTEGER) + 1);
    assert_eq!(heap.used(), before + 4);
    let quotient = div_2::result(&mut heap, below, Term::SmallInteger(-1)).unwrap();
    assert_eq!(big_int(&heap, quotient), BigInt::from(MAX_SMALL_INTEGER) + 2);
    assert_eq!(heap.used(), before + 6);
    let small = div_2::result(&mut heap, below, Term::SmallInteger(2)).unwrap();
    assert_eq!(small, Term::SmallInteger(MIN_SMALL_INTEGER / 2));
    assert_eq!(heap.used(), before + 6);
}

#[test]
fn integers_are_counted_in_words_and_digits() {
    assert_eq!(lumen_runtime::integer::words_of_u64(0), 0);
    assert_eq!(lumen_runtime::integer::words_of_u64(MAX_SMALL_INTEGER as u64), 0);
    assert_eq!(lumen_runtime::integer::words_of_u64(MAX_SMALL_INTEGER as u64 + 1), 2);
    assert_eq!(lumen_runtime::integer::words_of_u64(u64::MAX), 2);
    assert_eq!(lumen_runtime::integer::magnitude_of_four(&[]), 0);
    assert_eq!(lumen_runtime::integer::magnitude_of_four(&[5]), 5);
    assert_eq!(lumen_runtime::integer::magnitude_of_four(&[1, 2]), (2u128 << 32) + 1);
    assert_eq!(lumen_runtime::integer::magnitude_of_four(&[1, 2, 3]), (3u128 << 64) + (2u128 << 32) + 1);
    assert_eq!(
        lumen_runtime::integer::magnitude_of_four(&[u32::MAX, u32::MAX, u32::MAX, u32::MAX]),
        u128::MAX
    );
    // 5 times 2 to the power 64, to the right by 65 bits and by 200
    assert_eq!(bsl_2::shift_right(false, vec![0, 0, 5], 65), (false, vec![2]));
    assert_eq!(bsl_2::shift_right(true, vec![0, 0, 5], 65), (true, vec![3]));
    assert_eq!(bsl_2::shift_right(true, vec![0, 0, 5], 200), (true, vec![1]));
    assert_eq!(bsl_2::shift_right(false, vec![0, 0, 5], 200), (false, vec![]));
    assert_eq!(bsl_2::shift_right(true, vec![7], 0), (true, vec![7]));
}
