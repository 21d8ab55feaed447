use radix_div::radix::{BooleanBlock, RadixCiphertext, SignedRadixCiphertext};
use radix_div::server_key::ServerKey;
use radix_div::shortint::{CarryModulus, Ciphertext, MessageModulus, ShortintServerKey};

fn server_key(message_modulus: u64, carry_modulus: u64) -> ServerKey {
    ServerKey {
        key: ShortintServerKey {
            message_modulus: MessageModulus(message_modulus),
            carry_modulus: CarryModulus(carry_modulus),
        },
    }
}

fn modulus(sks: &ServerKey, num_blocks: usize) -> u64 {
    sks.key.message_modulus.0.pow(num_blocks as u32)
}

fn encrypt(sks: &ServerKey, value: u64, num_blocks: usize) -> RadixCiphertext {
    sks.create_trivial_radix(value, num_blocks)
}

fn encrypt_signed(sks: &ServerKey, value: i64, num_blocks: usize) -> SignedRadixCiphertext {
    let m = modulus(sks, num_blocks) as i64;
    let unsigned = value.rem_euclid(m) as u64;
    SignedRadixCiphertext { blocks: sks.create_trivial_radix(unsigned, num_blocks).blocks }
}

fn decrypt_blocks(sks: &ServerKey, blocks: &[Ciphertext]) -> u64 {
    let msg = sks.key.message_modulus.0;
    let mut value = 0u64;
    let mut weight = 1u64;
    for block in blocks {
        value += block.value * weight;
        weight *= msg;
    }
    value
}

fn decrypt(sks: &ServerKey, ct: &RadixCiphertext) -> u64 {
    decrypt_blocks(sks, &ct.blocks)
}

fn decrypt_signed(sks: &ServerKey, ct: &SignedRadixCiphertext) -> i64 {
    let m = modulus(sks, ct.blocks.len());
    let v = decrypt_blocks(sks, &ct.blocks) % m;
    if v >= m / 2 {
        v as i64 - m as i64
    } else {
        v as i64
    }
}

fn decrypt_bool(b: &BooleanBlock) -> bool {
    b.0.value == 1
}

fn carries_are_empty(sks: &ServerKey, blocks: &[Ciphertext]) -> bool {
    blocks.iter().all(|b| b.degree < sks.key.message_modulus.0 && b.value < sks.key.message_modulus.0)
}

fn values_fit_messages(sks: &ServerKey, blocks: &[Ciphertext]) -> bool {
    let size = sks.key.message_modulus.0 * sks.key.carry_modulus.0;
    blocks.iter().all(|b| b.value < sks.key.message_modulus.0 && b.value <= b.degree && b.degree < size)
}

/// Truncated division of two's complement values in `[-m/2, m/2)`, with the
/// behaviour for a zero divisor and the wrapping of the minimum divided by -1.
fn expected_signed(a: i64, b: i64, m: i64) -> (i64, i64) {
    if b == 0 {
        (if a < 0 { -1 } else { 1 }, a)
    } else if a == -m / 2 && b == -1 {
        (a, 0)
    } else {
        (a / b, a % b)
    }
}

/// Division rounded toward negative infinity of two's complement values in
/// `[-m/2, m/2)`, for a nonzero divisor.
fn expected_floor(a: i64, b: i64, m: i64) -> (i64, i64) {
    if a == -m / 2 && b == -1 {
        (a, 0)
    } else {
        let q = a.div_euclid(b);
        let r = a.rem_euclid(b);
        // Euclid gives a nonnegative remainder: move it to the divisor's side.
        if r != 0 && b < 0 {
            (q - 1, r + b)
        } else {
            (q, r)
        }
    }
}

#[test]
fn div_rem_example_from_the_docs() {
    let sks = server_key(4, 4);
    let ct1 = encrypt(&sks, 97, 4);
    let ct2 = encrypt(&sks, 14, 4);
    let (q, r) = sks.div_rem_parallelized(&ct1, &ct2);
    assert_eq!(decrypt(&sks, &q), 97 / 14);
    assert_eq!(decrypt(&sks, &r), 97 % 14);
    assert_eq!(decrypt(&sks, &q), 6);
    assert_eq!(decrypt(&sks, &r), 13);
}

#[test]
fn div_example_from_the_docs() {
    let sks = server_key(4, 4);
    let ct1 = encrypt(&sks, 97, 4);
    let ct2 = encrypt(&sks, 14, 4);
    let q = sks.div_parallelized(&ct1, &ct2);
    assert_eq!(decrypt(&sks, &q), 6);
}

#[test]
fn rem_example_from_the_docs() {
    let sks = server_key(4, 4);
    let ct1 = encrypt(&sks, 97, 4);
    let ct2 = encrypt(&sks, 14, 4);
    let r = sks.rem_parallelized(&ct1, &ct2);
    assert_eq!(decrypt(&sks, &r), 13);
}

#[test]
fn checked_div_rem_by_zero_example_from_the_docs() {
    let sks = server_key(4, 4);
    let ct1 = encrypt(&sks, 97, 4);
    let ct2 = encrypt(&sks, 0, 4);
    let (q, r, div_by_0) = sks.checked_div_rem_parallelized(&ct1, &ct2);
    assert!(decrypt_bool(&div_by_0));
    assert_eq!(decrypt(&sks, &q), u8::MAX as u64);
    assert_eq!(decrypt(&sks, &r), 97);
}

#[test]
fn checked_div_by_zero_example_from_the_docs() {
    let sks = server_key(4, 4);
    let ct1 = encrypt(&sks, 97, 4);
    let ct2 = encrypt(&sks, 0, 4);
    let (q, div_by_0) = sks.checked_div_parallelized(&ct1, &ct2);
    assert!(decrypt_bool(&div_by_0));
    assert_eq!(decrypt(&sks, &q), u8::MAX as u64);
}

#[test]
fn checked_rem_by_zero_example_from_the_docs() {
    let sks = server_key(4, 4);
    let ct1 = encrypt(&sks, 97, 4);
    let ct2 = encrypt(&sks, 0, 4);
    let (r, rem_by_0) = sks.checked_rem_parallelized(&ct1, &ct2);
    assert!(decrypt_bool(&rem_by_0));
    assert_eq!(decrypt(&sks, &r), 97);
}

#[test]
fn checked_flag_is_clear_for_a_nonzero_divisor() {
    let sks = server_key(4, 4);
    let ct1 = encrypt(&sks, 200, 4);
    let ct2 = encrypt(&sks, 9, 4);
    let (q, r, div_by_0) = sks.checked_div_rem_parallelized(&ct1, &ct2);
    assert!(!decrypt_bool(&div_by_0));
    assert_eq!(decrypt(&sks, &q), 22);
    assert_eq!(decrypt(&sks, &r), 2);
    let (q, div_by_0) = sks.checked_div_parallelized(&ct1, &ct2);
    assert!(!decrypt_bool(&div_by_0));
    assert_eq!(decrypt(&sks, &q), 22);
    let (r, rem_by_0) = sks.checked_rem_parallelized(&ct1, &ct2);
    assert!(!decrypt_bool(&rem_by_0));
    assert_eq!(decrypt(&sks, &r), 2);
}

/// Every pair of values, with the base-4 long division (two message bits,
/// two carry bits).
#[test]
fn unsigned_division_is_exact_with_two_bit_blocks() {
    let sks = server_key(4, 4);
    let num_blocks = 3;
    let m = modulus(&sks, num_blocks);
    for n in 0..m {
        for d in 0..m {
            let (q, r) = sks.unchecked_div_rem_parallelized(
                &encrypt(&sks, n, num_blocks),
                &encrypt(&sks, d, num_blocks),
            );
            assert!(carries_are_empty(&sks, &q.blocks));
            assert!(carries_are_empty(&sks, &r.blocks));
            let (q, r) = (decrypt(&sks, &q), decrypt(&sks, &r));
            if d == 0 {
                assert_eq!(q, m - 1);
                assert_eq!(r, n);
            } else {
                assert_eq!(q, n / d, "{} / {}", n, d);
                assert_eq!(r, n % d, "{} % {}", n, d);
                assert_eq!(n, q * d + r);
            }
        }
    }
}

/// Every pair of values, with the bit by bit long division (two message
/// bits, three carry bits).
#[test]
fn unsigned_division_is_exact_bit_by_bit() {
    let sks = server_key(4, 8);
    let num_blocks = 3;
    let m = modulus(&sks, num_blocks);
    for n in 0..m {
        for d in 0..m {
            let (q, r) = sks.unchecked_div_rem_parallelized(
                &encrypt(&sks, n, num_blocks),
                &encrypt(&sks, d, num_blocks),
            );
            assert!(carries_are_empty(&sks, &q.blocks));
            assert!(carries_are_empty(&sks, &r.blocks));
            let (q, r) = (decrypt(&sks, &q), decrypt(&sks, &r));
            if d == 0 {
                assert_eq!(q, m - 1);
                assert_eq!(r, n);
            } else {
                assert_eq!(q, n / d, "{} / {}", n, d);
                assert_eq!(r, n % d, "{} % {}", n, d);
            }
        }
    }
}

/// Three message bits per block: the bits of a block are read in several
/// steps and the divisor is cut inside a block.
#[test]
fn unsigned_division_with_three_bit_blocks() {
    let sks = server_key(8, 8);
    let num_blocks = 3;
    let m = modulus(&sks, num_blocks);
    assert_eq!(m, 512);
    let cases = [
        (500u64, 7u64),
        (511, 1),
        (511, 511),
        (0, 5),
        (100, 200),
        (256, 3),
        (511, 2),
        (300, 17),
        (73, 0),
        (0, 0),
    ];
    for (n, d) in cases {
        let (q, r) = sks.div_rem_parallelized(&encrypt(&sks, n, num_blocks), &encrypt(&sks, d, num_blocks));
        let (q, r) = (decrypt(&sks, &q), decrypt(&sks, &r));
        if d == 0 {
            assert_eq!(q, m - 1);
            assert_eq!(r, n);
        } else {
            assert_eq!(q, n / d, "{} / {}", n, d);
            assert_eq!(r, n % d, "{} % {}", n, d);
        }
    }
    for d in 1..m {
        let n = 509;
        let (q, r) = sks.div_rem_parallelized(&encrypt(&sks, n, num_blocks), &encrypt(&sks, d, num_blocks));
        assert_eq!(decrypt(&sks, &q), n / d);
        assert_eq!(decrypt(&sks, &r), n % d);
    }
}

#[test]
fn unsigned_division_of_empty_integers() {
    let sks = server_key(4, 8);
    let n = RadixCiphertext { blocks: Vec::new() };
    let d = RadixCiphertext { blocks: Vec::new() };
    let (q, r) = sks.div_rem_parallelized(&n, &d);
    assert!(q.blocks.is_empty());
    assert!(r.blocks.is_empty());
}

/// Every pair of values on 6 bits, read as two's complement: the quotient
/// rounds toward zero and the remainder has the numerator's sign.
#[test]
fn signed_division_rounds_toward_zero() {
    for (msg, carry) in [(4u64, 4u64), (4, 8)] {
        let sks = server_key(msg, carry);
        let num_blocks = 3;
        let m = modulus(&sks, num_blocks) as i64;
        for a in -m / 2..m / 2 {
            for b in -m / 2..m / 2 {
                let (q, r) = sks.unchecked_div_rem_parallelized(
                    &encrypt_signed(&sks, a, num_blocks),
                    &encrypt_signed(&sks, b, num_blocks),
                );
                assert!(values_fit_messages(&sks, &q.blocks));
                assert!(values_fit_messages(&sks, &r.blocks));
                let expected = expected_signed(a, b, m);
                assert_eq!((decrypt_signed(&sks, &q), decrypt_signed(&sks, &r)), expected, "{} / {}", a, b);
            }
        }
    }
}

#[test]
fn signed_division_by_zero() {
    let sks = server_key(4, 4);
    let num_blocks = 4;
    let (q, r) = sks.div_rem_parallelized(&encrypt_signed(&sks, -37, num_blocks), &encrypt_signed(&sks, 0, num_blocks));
    assert_eq!(decrypt_signed(&sks, &q), -1);
    assert_eq!(decrypt_signed(&sks, &r), -37);
    let (q, r) = sks.div_rem_parallelized(&encrypt_signed(&sks, 37, num_blocks), &encrypt_signed(&sks, 0, num_blocks));
    assert_eq!(decrypt_signed(&sks, &q), 1);
    assert_eq!(decrypt_signed(&sks, &r), 37);
    let (q, r) = sks.div_rem_parallelized(&encrypt_signed(&sks, 0, num_blocks), &encrypt_signed(&sks, 0, num_blocks));
    assert_eq!(decrypt_signed(&sks, &q), 1);
    assert_eq!(decrypt_signed(&sks, &r), 0);
}

#[test]
fn signed_minimum_divided_by_minus_one_wraps() {
    let sks = server_key(4, 4);
    let num_blocks = 4;
    let (q, r) = sks.div_rem_parallelized(
        &encrypt_signed(&sks, i8::MIN as i64, num_blocks),
        &encrypt_signed(&sks, -1, num_blocks),
    );
    assert_eq!(decrypt_signed(&sks, &q), i8::MIN as i64);
    assert_eq!(decrypt_signed(&sks, &r), 0);
}

#[test]
fn signed_division_examples() {
    let sks = server_key(4, 4);
    let num_blocks = 4;
    for (a, b) in [(-97i64, 14i64), (97, -14), (-97, -14), (127, 3), (-128, 3), (-128, 127), (5, -128)] {
        let (q, r) = sks.div_rem_parallelized(&encrypt_signed(&sks, a, num_blocks), &encrypt_signed(&sks, b, num_blocks));
        assert_eq!(decrypt_signed(&sks, &q), a / b, "{} / {}", a, b);
        assert_eq!(decrypt_signed(&sks, &r), a % b, "{} % {}", a, b);
    }
}

/// Every pair of values on 6 bits with a nonzero divisor: the quotient is
/// rounded toward negative infinity and the remainder has the divisor's sign.
#[test]
fn floor_division_rounds_down() {
    for (msg, carry) in [(4u64, 4u64), (4, 8)] {
        let sks = server_key(msg, carry);
        let num_blocks = 3;
        let m = modulus(&sks, num_blocks) as i64;
        for a in -m / 2..m / 2 {
            for b in -m / 2..m / 2 {
                if b == 0 {
                    continue;
                }
                let (q, r) = sks.unchecked_div_rem_floor_parallelized(
                    &encrypt_signed(&sks, a, num_blocks),
                    &encrypt_signed(&sks, b, num_blocks),
                );
                assert!(values_fit_messages(&sks, &q.blocks));
                assert!(values_fit_messages(&sks, &r.blocks));
                let expected = expected_floor(a, b, m);
                assert_eq!((decrypt_signed(&sks, &q), decrypt_signed(&sks, &r)), expected, "{} / {}", a, b);
                let (q, r) = expected;
                assert!(r == 0 || (r < 0) == (b < 0));
                if !(a == -m / 2 && b == -1) {
                    assert_eq!(a, b * q + r);
                }
            }
        }
    }
}

#[test]
fn floor_division_examples() {
    let sks = server_key(4, 4);
    let num_blocks = 4;
    let cases = [(-7i64, 2i64, -4i64, 1i64), (7, -2, -4, -1), (-7, -2, 3, -1), (7, 2, 3, 1), (-8, 2, -4, 0)];
    for (a, b, eq, er) in cases {
        let (q, r) = sks.unchecked_div_rem_floor_parallelized(
            &encrypt_signed(&sks, a, num_blocks),
            &encrypt_signed(&sks, b, num_blocks),
        );
        assert_eq!(decrypt_signed(&sks, &q), eq, "{} / {}", a, b);
        assert_eq!(decrypt_signed(&sks, &r), er, "{} % {}", a, b);
    }
}

/// A numerator whose blocks carry: its value is 2 + 5 * 4 + 1 * 16 = 38,
/// held in 3 blocks of 2 bits.
fn numerator_with_carries(sks: &ServerKey) -> RadixCiphertext {
    let block = |value: u64| Ciphertext {
        value,
        degree: 7,
        message_modulus: sks.key.message_modulus,
        carry_modulus: sks.key.carry_modulus,
    };
    RadixCiphertext { blocks: vec![block(2), block(5), block(1)] }
}

#[test]
fn division_propagates_carries_first() {
    let sks = server_key(4, 4);
    let n = numerator_with_carries(&sks);
    assert_eq!(decrypt(&sks, &n), 38);
    let d = encrypt(&sks, 5, 3);
    let (q, r) = sks.div_rem_parallelized(&n, &d);
    assert_eq!(decrypt(&sks, &q), 7);
    assert_eq!(decrypt(&sks, &r), 3);
    assert_eq!(decrypt(&sks, &sks.div_parallelized(&n, &d)), 7);
    assert_eq!(decrypt(&sks, &sks.rem_parallelized(&n, &d)), 3);
    // The operands are left as they were.
    assert_eq!(n.blocks[1].value, 5);
}

#[test]
fn carries_that_leave_the_integer_are_dropped() {
    let sks = server_key(4, 4);
    let block = |value: u64| Ciphertext {
        value,
        degree: 15,
        message_modulus: sks.key.message_modulus,
        carry_modulus: sks.key.carry_modulus,
    };
    // 3 + 15 * 4 = 63 on 2 blocks of 2 bits: 63 mod 16 = 15.
    let n = RadixCiphertext { blocks: vec![block(3), block(15)] };
    let d = encrypt(&sks, 4, 2);
    let (q, r) = sks.div_rem_parallelized(&n, &d);
    assert_eq!(decrypt(&sks, &q), 3);
    assert_eq!(decrypt(&sks, &r), 3);
}

#[test]
fn smart_division_propagates_in_place() {
    let sks = server_key(4, 4);
    let mut n = numerator_with_carries(&sks);
    let mut d = encrypt(&sks, 5, 3);
    let (q, r) = sks.smart_div_rem_parallelized(&mut n, &mut d);
    assert_eq!(decrypt(&sks, &q), 7);
    assert_eq!(decrypt(&sks, &r), 3);
    assert!(carries_are_empty(&sks, &n.blocks));
    assert_eq!(decrypt(&sks, &n), 38);

    let mut n = numerator_with_carries(&sks);
    let mut d = encrypt(&sks, 5, 3);
    let q = sks.smart_div_parallelized(&mut n, &mut d);
    assert_eq!(decrypt(&sks, &q), 7);
    assert!(carries_are_empty(&sks, &n.blocks));

    let mut n = numerator_with_carries(&sks);
    let mut d = encrypt(&sks, 5, 3);
    let r = sks.smart_rem_parallelized(&mut n, &mut d);
    assert_eq!(decrypt(&sks, &r), 3);
    assert!(carries_are_empty(&sks, &n.blocks));
}

#[test]
fn assign_variants_store_the_result_in_the_numerator() {
    let sks = server_key(4, 4);
    let d = encrypt(&sks, 14, 4);

    let mut n = encrypt(&sks, 97, 4);
    sks.unchecked_div_assign_parallelized(&mut n, &d);
    assert_eq!(decrypt(&sks, &n), 6);

    let mut n = encrypt(&sks, 97, 4);
    sks.unchecked_rem_assign_parallelized(&mut n, &d);
    assert_eq!(decrypt(&sks, &n), 13);

    let mut n = encrypt(&sks, 97, 4);
    sks.div_assign_parallelized(&mut n, &d);
    assert_eq!(decrypt(&sks, &n), 6);

    let mut n = encrypt(&sks, 97, 4);
    sks.rem_assign_parallelized(&mut n, &d);
    assert_eq!(decrypt(&sks, &n), 13);

    let mut n = encrypt(&sks, 97, 4);
    let mut d2 = encrypt(&sks, 14, 4);
    sks.smart_div_assign_parallelized(&mut n, &mut d2);
    assert_eq!(decrypt(&sks, &n), 6);

    let mut n = encrypt(&sks, 97, 4);
    let mut d2 = encrypt(&sks, 14, 4);
    sks.smart_rem_assign_parallelized(&mut n, &mut d2);
    assert_eq!(decrypt(&sks, &n), 13);

    let mut n = numerator_with_carries(&sks);
    let d3 = encrypt(&sks, 5, 3);
    sks.div_assign_parallelized(&mut n, &d3);
    assert_eq!(decrypt(&sks, &n), 7);

    let mut n = numerator_with_carries(&sks);
    sks.rem_assign_parallelized(&mut n, &d3);
    assert_eq!(decrypt(&sks, &n), 3);
}

#[test]
fn unchecked_div_and_rem_match_div_rem() {
    let sks = server_key(8, 8);
    let n = encrypt(&sks, 400, 3);
    let d = encrypt(&sks, 13, 3);
    let (q, r) = sks.unchecked_div_rem_parallelized(&n, &d);
    assert_eq!(decrypt(&sks, &sks.unchecked_div_parallelized(&n, &d)), decrypt(&sks, &q));
    assert_eq!(decrypt(&sks, &sks.unchecked_rem_parallelized(&n, &d)), decrypt(&sks, &r));
    assert_eq!(decrypt(&sks, &q), 30);
    assert_eq!(decrypt(&sks, &r), 10);
}

#[test]
fn signed_checked_division_by_zero() {
    let sks = server_key(4, 4);
    let n = encrypt_signed(&sks, -20, 4);
    let d = encrypt_signed(&sks, 0, 4);
    let (q, r, div_by_0) = sks.checked_div_rem_parallelized(&n, &d);
    assert!(decrypt_bool(&div_by_0));
    assert_eq!(decrypt_signed(&sks, &q), -1);
    assert_eq!(decrypt_signed(&sks, &r), -20);
}

/// The example from the docs, with one-bit messages: the bit by bit long
/// division runs.
#[test]
fn div_rem_example_with_one_bit_messages() {
    let sks = server_key(2, 2);
    let ct1 = encrypt(&sks, 97, 8);
    let ct2 = encrypt(&sks, 14, 8);
    let (q, r) = sks.div_rem_parallelized(&ct1, &ct2);
    assert_eq!(decrypt(&sks, &q), 6);
    assert_eq!(decrypt(&sks, &r), 13);
    assert!(carries_are_empty(&sks, &q.blocks));
    assert!(carries_are_empty(&sks, &r.blocks));
}

/// With one-bit messages both overflow flags can be set at once (here at the
/// first step of 1 / 3): they are merged without overflowing a message.
#[test]
fn both_overflow_flags_with_one_bit_messages() {
    let sks = server_key(2, 2);
    let (q, r) = sks.div_rem_parallelized(&encrypt(&sks, 1, 2), &encrypt(&sks, 3, 2));
    assert_eq!(decrypt(&sks, &q), 0);
    assert_eq!(decrypt(&sks, &r), 1);
}

#[test]
fn unsigned_division_is_exact_with_one_bit_messages() {
    for carry in [2u64, 4] {
        let sks = server_key(2, carry);
        let num_blocks = 5;
        let m = modulus(&sks, num_blocks);
        for n in 0..m {
            for d in 0..m {
                let (q, r) = sks.unchecked_div_rem_parallelized(
                    &encrypt(&sks, n, num_blocks),
                    &encrypt(&sks, d, num_blocks),
                );
                assert!(carries_are_empty(&sks, &q.blocks));
                assert!(carries_are_empty(&sks, &r.blocks));
                let (q, r) = (decrypt(&sks, &q), decrypt(&sks, &r));
                if d == 0 {
                    assert_eq!(q, m - 1);
                    assert_eq!(r, n);
                } else {
                    assert_eq!(q, n / d, "{} / {}", n, d);
                    assert_eq!(r, n % d, "{} % {}", n, d);
                }
            }
        }
    }
}

#[test]
fn signed_and_floor_division_with_one_bit_messages() {
    let sks = server_key(2, 2);
    let num_blocks = 4;
    let m = modulus(&sks, num_blocks) as i64;
    for a in -m / 2..m / 2 {
        for b in -m / 2..m / 2 {
            let n = encrypt_signed(&sks, a, num_blocks);
            let d = encrypt_signed(&sks, b, num_blocks);
            let (q, r) = sks.unchecked_div_rem_parallelized(&n, &d);
            assert_eq!((decrypt_signed(&sks, &q), decrypt_signed(&sks, &r)), expected_signed(a, b, m), "{} / {}", a, b);
            if b != 0 {
                let (q, r) = sks.unchecked_div_rem_floor_parallelized(&n, &d);
                assert_eq!((decrypt_signed(&sks, &q), decrypt_signed(&sks, &r)), expected_floor(a, b, m), "{} / {}", a, b);
            }
        }
    }
}

/// One block of one bit: the values are 0 and -1; the quotient of a division
/// by 0 is 1, which reads as -1, and the remainder is the numerator.
#[test]
fn signed_division_on_a_single_bit() {
    let sks = server_key(2, 2);
    for (a, b, eq, er) in [(0i64, 0i64, -1i64, 0i64), (-1, 0, -1, -1), (0, -1, 0, 0), (-1, -1, -1, 0)] {
        let (q, r) = sks.div_rem_parallelized(&encrypt_signed(&sks, a, 1), &encrypt_signed(&sks, b, 1));
        assert_eq!(decrypt_signed(&sks, &q), eq, "{} / {}", a, b);
        assert_eq!(decrypt_signed(&sks, &r), er, "{} % {}", a, b);
    }
}

#[test]
fn smart_division_leaves_operands_without_carries_untouched() {
    let sks = server_key(4, 4);
    let mut n = encrypt(&sks, 97, 4);
    let mut d = encrypt(&sks, 14, 4);
    let before_n: Vec<(u64, u64)> = n.blocks.iter().map(|b| (b.value, b.degree)).collect();
    let before_d: Vec<(u64, u64)> = d.blocks.iter().map(|b| (b.value, b.degree)).collect();
    let (q, r) = sks.smart_div_rem_parallelized(&mut n, &mut d);
    assert_eq!(decrypt(&sks, &q), 6);
    assert_eq!(decrypt(&sks, &r), 13);
    assert_eq!(n.blocks.iter().map(|b| (b.value, b.degree)).collect::<Vec<_>>(), before_n);
    assert_eq!(d.blocks.iter().map(|b| (b.value, b.degree)).collect::<Vec<_>>(), before_d);
}

#[test]
fn assign_results_have_empty_carries() {
    let sks = server_key(4, 4);
    let d = encrypt(&sks, 5, 3);
    let mut n = numerator_with_carries(&sks);
    sks.div_assign_parallelized(&mut n, &d);
    assert!(carries_are_empty(&sks, &n.blocks));
    assert_eq!(decrypt(&sks, &n), 7);
    let mut n = numerator_with_carries(&sks);
    sks.rem_assign_parallelized(&mut n, &d);
    assert!(carries_are_empty(&sks, &n.blocks));
    assert_eq!(decrypt(&sks, &n), 3);
}
