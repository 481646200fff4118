use ark_ff_core::batch::{
    batch_inversion, batch_inversion_and_mul, batch_inversion_and_mul_chunked,
    serial_batch_inversion_and_mul,
};
use ark_ff_core::bits::{BitIteratorBE, BitIteratorLE};
use ark_ff_core::cyclotomic::{cyclotomic_exp, cyclotomic_exp_in_place, find_naf};
use ark_ff_core::f17::F17;
use ark_ff_core::fft::{checked_pow, get_root_of_unity, k_adicity};
use ark_ff_core::field::{sum_of_products, Field};
use ark_ff_core::pow::{pow, pow_with_table};
use ark_ff_core::prime::{from_be_bytes_mod_order, from_le_bytes_mod_order, PrimeField};
use ark_ff_core::sqrt::{sqrt, sqrt_in_place, LegendreSymbol};
use num_bigint::BigUint;

const MODULUS: u64 = 17;

fn all_nonzero() -> Vec<F17> {
    (1..MODULUS).map(F17::new).collect()
}

/// A small deterministic byte generator.
fn pseudo_random_bytes(seed: u64, len: usize) -> Vec<u8> {
    let mut state = seed.wrapping_mul(6364136223846793005).wrapping_add(1442695040888963407);
    let mut out = Vec::with_capacity(len);
    for _ in 0..len {
        state = state.wrapping_mul(6364136223846793005).wrapping_add(1442695040888963407);
        out.push((state >> 33) as u8);
    }
    out
}

fn biguint_mod_17(n: &BigUint) -> u64 {
    let r = n % BigUint::from(MODULUS);
    r.to_u64_digits().first().copied().unwrap_or(0)
}

#[test]
fn bit_iterator_le() {
    let mut it = BitIteratorLE::new(vec![0, 1 << 10]);
    let mut bits = Vec::new();
    while let Some(b) = it.next() {
        bits.push(b);
    }
    assert_eq!(bits.len(), 128);
    assert!(bits[74]);
    for (i, bit) in bits.into_iter().enumerate() {
        if i != 74 {
            assert!(!bit)
        } else {
            assert!(bit)
        }
    }
}

#[test]
fn bit_iterator_be_places_the_set_bit() {
    let mut it = BitIteratorBE::new(vec![0, 1 << 10]);
    let mut bits = Vec::new();
    while let Some(b) = it.next() {
        bits.push(b);
    }
    assert_eq!(bits.len(), 128);
    for (i, bit) in bits.iter().enumerate() {
        assert_eq!(*bit, i == 127 - 74);
    }
}

#[test]
fn bit_iterators_skip_zeros() {
    let be = BitIteratorBE::without_leading_zeros(&[0b1011, 0]);
    assert_eq!(be, vec![true, false, true, true]);
    let le = BitIteratorLE::without_trailing_zeros(&[0b1011, 0]);
    assert_eq!(le, vec![true, true, false, true]);
    let le_high = BitIteratorLE::without_trailing_zeros(&[0, 1]);
    assert_eq!(le_high.len(), 65);
    assert!(le_high[64]);
    assert!(BitIteratorBE::without_leading_zeros(&[0, 0]).is_empty());
    assert!(BitIteratorLE::without_trailing_zeros(&[0, 0]).is_empty());
    assert!(BitIteratorLE::without_trailing_zeros(&[]).is_empty());
}

#[test]
fn test_batch_inversion() {
    let mut random_coeffs = Vec::<F17>::new();
    let vec_size = 1000;

    for i in 0..=vec_size {
        random_coeffs.push(F17::new((i as u64 * 7 + 3) % 16 + 1));
    }

    let mut random_coeffs_inv = random_coeffs.clone();
    batch_inversion::<F17>(&mut random_coeffs_inv);
    for i in 0..=vec_size {
        assert_eq!(random_coeffs_inv[i].mul(&random_coeffs[i]), F17::one());
    }
    let rand_multiplier = F17::new(11);
    let mut random_coeffs_inv_shifted = random_coeffs.clone();
    batch_inversion_and_mul(&mut random_coeffs_inv_shifted, &rand_multiplier);
    for i in 0..=vec_size {
        assert_eq!(random_coeffs_inv_shifted[i].mul(&random_coeffs[i]), rand_multiplier);
    }
}

#[test]
fn batch_inversion_leaves_zeros() {
    let orig = vec![F17::new(0), F17::new(9), F17::new(0), F17::new(5), F17::new(0)];
    let mut v = orig.clone();
    batch_inversion(&mut v);
    assert_eq!(v[0], F17::zero());
    assert_eq!(v[2], F17::zero());
    assert_eq!(v[4], F17::zero());
    assert_eq!(v[1], F17::new(2));
    assert_eq!(v[3], F17::new(7));

    let mut scaled = orig.clone();
    serial_batch_inversion_and_mul(&mut scaled, &F17::new(3));
    assert_eq!(scaled[1], F17::new(6));
    assert_eq!(scaled[0], F17::zero());

    let mut empty: Vec<F17> = Vec::new();
    batch_inversion(&mut empty);
    assert!(empty.is_empty());
    let mut zeros = vec![F17::zero(); 4];
    batch_inversion(&mut zeros);
    assert_eq!(zeros, vec![F17::zero(); 4]);
}

#[test]
fn chunked_batch_inversion_matches_serial() {
    let orig: Vec<F17> = (0..40u64).map(|i| F17::new(i * 5 + 1)).collect();
    let coeff = F17::new(13);
    let mut serial = orig.clone();
    serial_batch_inversion_and_mul(&mut serial, &coeff);
    for chunk in [1usize, 2, 3, 7, 40, 100] {
        let mut chunked = orig.clone();
        batch_inversion_and_mul_chunked(&mut chunked, &coeff, chunk);
        assert_eq!(chunked, serial);
    }
}

#[test]
fn test_from_into_biguint() {
    let modulus_bits = 5u32;
    let modulus = BigUint::from(MODULUS);

    let mut rand_bytes = Vec::new();
    for b in pseudo_random_bytes(7, (2 * modulus_bits / 8 + 40) as usize) {
        rand_bytes.push(b);
    }

    let rand = BigUint::from_bytes_le(&rand_bytes);

    let a: F17 = from_le_bytes_mod_order(&rand_bytes);
    let b = rand % modulus;

    assert_eq!(BigUint::from(a.value()), b);
}

#[test]
fn test_from_be_bytes_mod_order() {
    let mut test_vectors = vec![
        vec![0u8],
        vec![1u8],
        vec![255u8],
        vec![1u8, 0u8],
        vec![1u8, 0u8, 255u8],
        vec![
            115u8, 237u8, 167u8, 83u8, 41u8, 157u8, 125u8, 72u8, 51u8, 57u8, 216u8, 8u8, 9u8,
            161u8, 216u8, 5u8, 83u8, 189u8, 164u8, 2u8, 255u8, 254u8, 91u8, 254u8, 255u8, 255u8,
            255u8, 255u8, 0u8, 0u8, 0u8,
        ],
        vec![
            115u8, 237u8, 167u8, 83u8, 41u8, 157u8, 125u8, 72u8, 51u8, 57u8, 216u8, 8u8, 9u8,
            161u8, 216u8, 5u8, 83u8, 189u8, 164u8, 2u8, 255u8, 254u8, 91u8, 254u8, 255u8, 255u8,
            255u8, 255u8, 0u8, 0u8, 1u8,
        ],
        vec![
            115u8, 237u8, 167u8, 83u8, 41u8, 157u8, 125u8, 72u8, 51u8, 57u8, 216u8, 8u8, 9u8,
            161u8, 216u8, 5u8, 83u8, 189u8, 164u8, 2u8, 255u8, 254u8, 91u8, 254u8, 255u8, 255u8,
            255u8, 255u8, 0u8, 0u8, 0u8, 0u8,
        ],
        vec![
            115u8, 237u8, 167u8, 83u8, 41u8, 157u8, 125u8, 72u8, 51u8, 57u8, 216u8, 8u8, 9u8,
            161u8, 216u8, 5u8, 83u8, 189u8, 164u8, 2u8, 255u8, 254u8, 91u8, 254u8, 255u8, 255u8,
            255u8, 255u8, 0u8, 0u8, 0u8, 1u8,
        ],
        vec![
            115u8, 237u8, 167u8, 83u8, 41u8, 157u8, 125u8, 72u8, 51u8, 57u8, 216u8, 8u8, 9u8,
            161u8, 216u8, 5u8, 83u8, 189u8, 164u8, 2u8, 255u8, 254u8, 91u8, 254u8, 255u8, 255u8,
            255u8, 255u8, 0u8, 0u8, 0u8, 2u8,
        ],
        vec![
            231u8, 219u8, 78u8, 166u8, 83u8, 58u8, 250u8, 144u8, 102u8, 115u8, 176u8, 16u8, 19u8,
            67u8, 176u8, 10u8, 167u8, 123u8, 72u8, 5u8, 255u8, 252u8, 183u8, 253u8, 255u8, 255u8,
            255u8, 254u8, 0u8, 0u8, 0u8, 2u8,
        ],
        vec![
            115u8, 237u8, 167u8, 83u8, 41u8, 157u8, 125u8, 72u8, 51u8, 57u8, 216u8, 8u8, 9u8,
            161u8, 216u8, 5u8, 83u8, 189u8, 164u8, 2u8, 255u8, 254u8, 91u8, 254u8, 255u8, 255u8,
            255u8, 255u8, 0u8, 0u8, 0u8, 1u8, 0u8,
        ],
        vec![
            1u8, 0u8, 0u8, 0u8, 0u8, 0u8, 0u8, 0u8, 0u8, 0u8, 0u8, 0u8, 0u8, 0u8, 0u8, 0u8, 0u8,
            0u8, 0u8, 0u8, 0u8, 0u8, 0u8, 0u8, 0u8, 0u8, 0u8, 0u8, 0u8, 0u8, 0u8, 0u8, 17u8,
        ],
        vec![
            1u8, 115u8, 237u8, 167u8, 83u8, 41u8, 157u8, 125u8, 72u8, 51u8, 57u8, 216u8, 8u8, 9u8,
            161u8, 216u8, 5u8, 83u8, 189u8, 164u8, 2u8, 255u8, 254u8, 91u8, 254u8, 255u8, 255u8,
            255u8, 255u8, 0u8, 0u8, 0u8, 20u8,
        ],
        vec![
            1u8, 0u8, 115u8, 237u8, 167u8, 83u8, 41u8, 157u8, 125u8, 72u8, 51u8, 57u8, 216u8, 8u8,
            9u8, 161u8, 216u8, 5u8, 83u8, 189u8, 164u8, 2u8, 255u8, 254u8, 91u8, 254u8, 255u8,
            255u8, 255u8, 255u8, 0u8, 0u8, 0u8, 82u8,
        ],
    ];
    for i in 1..512 {
        test_vectors.push(pseudo_random_bytes(i as u64, i));
    }
    let ref_modulus = BigUint::from(MODULUS);
    for i in test_vectors {
        let expected_biguint =
            BigUint::from_bytes_be(&i).modpow(&BigUint::from_bytes_be(&[1u8]), &ref_modulus);
        let expected = F17::new(biguint_mod_17(&expected_biguint));
        let actual: F17 = from_be_bytes_mod_order(&i);
        assert_eq!(expected, actual, "failed on test {:?}", i);
    }
}

#[test]
fn from_bytes_small_values() {
    let a: F17 = from_be_bytes_mod_order(&[1u8, 0u8]);
    assert_eq!(a.value(), 256 % 17);
    let b: F17 = from_le_bytes_mod_order(&[0u8, 1u8]);
    assert_eq!(b.value(), 256 % 17);
    let z: F17 = from_be_bytes_mod_order(&[]);
    assert_eq!(z, F17::zero());
}

#[test]
fn inverse_law_holds() {
    assert_eq!(F17::new(9).inverse(), Some(F17::new(2)));
    assert_eq!(F17::new(0).inverse(), None);
    for x in all_nonzero() {
        let y = x.inverse().unwrap();
        assert_eq!(x.mul(&y), F17::one());
    }
}

#[test]
fn field_arithmetic() {
    let a = F17::new(9);
    let b = F17::new(10);
    assert_eq!(a, F17::new(26));
    assert_eq!(a.add(&b), F17::new(2));
    assert_eq!(a.mul(&b), F17::new(5));
    assert_eq!(a.square(), F17::new(13));
    assert!(F17::zero().is_zero());
    assert!(F17::one().is_one());
    assert!(F17::new(4).equals(&F17::new(21)));
    assert_eq!(F17::from_u64(40).value(), 6);
}

#[test]
fn sqrt_round_trip() {
    for x in all_nonzero() {
        let y = x.square();
        let r = sqrt(&y).expect("a square has a root");
        assert_eq!(r.square(), y);
    }
    assert_eq!(sqrt(&F17::zero()), Some(F17::zero()));
    assert_eq!(sqrt(&F17::new(9)).map(|r| r.square()), Some(F17::new(9)));
}

#[test]
fn sqrt_of_nonresidue_is_absent() {
    let squares = [1u64, 4, 9, 16, 8, 2, 15, 13];
    for v in 1..MODULUS {
        let r = sqrt(&F17::new(v));
        assert_eq!(r.is_some(), squares.contains(&v), "value {}", v);
    }
    assert_eq!(sqrt(&F17::new(3)), None);
}

#[test]
fn sqrt_in_place_replaces_or_keeps() {
    let mut x = F17::new(2);
    assert!(sqrt_in_place(&mut x));
    assert_eq!(x.square(), F17::new(2));
    let mut y = F17::new(3);
    assert!(!sqrt_in_place(&mut y));
    assert_eq!(y, F17::new(3));
}

#[test]
fn legendre_classifies() {
    assert_eq!(F17::zero().legendre(), LegendreSymbol::Zero);
    assert!(F17::zero().legendre().is_zero());
    assert!(F17::new(2).legendre().is_qr());
    assert!(F17::new(3).legendre().is_qnr());
    assert!(!F17::new(3).legendre().is_qr());
    assert!(!F17::new(4).legendre().is_zero());
}

#[test]
fn pow_fermat() {
    for x in all_nonzero() {
        assert_eq!(pow(&x, &[MODULUS - 1]), F17::one());
        assert_eq!(pow(&x, &[MODULUS]), x);
    }
    assert_eq!(pow(&F17::new(3), &[0]), F17::one());
    assert_eq!(pow(&F17::new(3), &[]), F17::one());
    assert_eq!(pow(&F17::new(3), &[5]), F17::new(243 % 17));
    // 2^64 * 1 + 1: 3^(2^64 + 1) == 3^(2^64 mod 16 + 1) == 3
    assert_eq!(pow(&F17::new(3), &[1, 1]), F17::new(3));
}

#[test]
fn pow_with_table_matches_pow() {
    let x = F17::new(5);
    let mut table = vec![x];
    for _ in 0..7 {
        let last = *table.last().unwrap();
        table.push(last.square());
    }
    for e in 0u64..256 {
        assert_eq!(pow_with_table(&table, &[e]), Some(pow(&x, &[e])));
    }
    assert_eq!(pow_with_table(&table, &[256]), None);
    assert_eq!(pow_with_table::<F17>(&[], &[0]), Some(F17::one()));
    assert_eq!(pow_with_table::<F17>(&[], &[1]), None);
}

#[test]
fn naf_digits() {
    assert_eq!(find_naf(&[7]).iter().rev().skip_while(|d| **d == 0).count(), 4);
    let naf = find_naf(&[7]);
    let value: i64 = naf.iter().enumerate().map(|(i, d)| (*d as i64) << i).sum();
    assert_eq!(value, 7);
    assert_eq!(&naf[..4], &[-1, 0, 0, 1]);
    for e in 0u64..300 {
        let naf = find_naf(&[e]);
        let value: i128 = naf.iter().enumerate().map(|(i, d)| (*d as i128) << i).sum();
        assert_eq!(value, e as i128);
        for w in naf.windows(2) {
            assert!(w[0] == 0 || w[1] == 0);
        }
    }
}

#[test]
fn cyclotomic_exp_matches_pow() {
    for x in all_nonzero() {
        for e in 0u64..40 {
            assert_eq!(cyclotomic_exp(&x, &[e]), pow(&x, &[e]));
        }
    }
    let mut z = F17::zero();
    cyclotomic_exp_in_place(&mut z, &[5]);
    assert_eq!(z, F17::zero());
    let mut t = F17::new(3);
    cyclotomic_exp_in_place(&mut t, &[16]);
    assert_eq!(t, F17::one());
}

#[test]
fn root_of_unity_order() {
    for k in 0..=4u32 {
        let n = 1u64 << k;
        let r: F17 = get_root_of_unity(n).expect("within the two-adicity");
        assert_eq!(pow(&r, &[n]), F17::one());
        for m in 1..n {
            assert_ne!(pow(&r, &[m]), F17::one());
        }
    }
    assert_eq!(get_root_of_unity::<F17>(16), Some(F17::new(3)));
    assert_eq!(get_root_of_unity::<F17>(2), Some(F17::new(16)));
    assert_eq!(get_root_of_unity::<F17>(3), None);
    assert_eq!(get_root_of_unity::<F17>(32), None);
    assert_eq!(get_root_of_unity::<F17>(0), None);
    assert_eq!(get_root_of_unity::<F17>(1), Some(F17::one()));
}

#[test]
fn adicity_and_checked_pow() {
    assert_eq!(k_adicity(2, 48), 4);
    assert_eq!(k_adicity(3, 48), 1);
    assert_eq!(k_adicity(5, 48), 0);
    assert_eq!(k_adicity(2, 0), 0);
    assert_eq!(k_adicity(2, 1), 0);
    assert_eq!(k_adicity(2, 1 << 63), 63);
    assert_eq!(checked_pow(3, 4), Some(81));
    assert_eq!(checked_pow(2, 63), Some(1 << 63));
    assert_eq!(checked_pow(2, 64), None);
    assert_eq!(checked_pow(7, 0), Some(1));
}

#[test]
fn sum_of_products_of_arrays() {
    let a = [F17::new(1), F17::new(2), F17::new(3)];
    let b = [F17::new(4), F17::new(5), F17::new(6)];
    // 4 + 10 + 18 == 32 == 15 mod 17
    assert_eq!(sum_of_products(&a, &b), F17::new(15));
    let e: [F17; 0] = [];
    assert_eq!(sum_of_products(&e, &e), F17::zero());
}

#[test]
fn prime_field_methods() {
    assert_eq!(F17::modulus_bit_size(), 5);
    assert_eq!(<F17 as PrimeField>::from_be_bytes_mod_order(&[1, 2]).value(), 258 % 17);
    assert_eq!(<F17 as PrimeField>::from_le_bytes_mod_order(&[1, 2]).value(), 513 % 17);
}

#[test]
fn batch_entries_are_scaled_inverses() {
    let orig: Vec<F17> = (0..17u64).map(F17::new).collect();
    let c = F17::new(6);
    let mut v = orig.clone();
    batch_inversion_and_mul(&mut v, &c);
    for (x, y) in orig.iter().zip(v.iter()) {
        match x.inverse() {
            Some(inv) => assert_eq!(*y, c.mul(&inv)),
            None => assert_eq!(*y, F17::zero()),
        }
    }
}

#[test]
fn sqrt_succeeds_exactly_on_squares() {
    let squares: Vec<F17> = (0..MODULUS).map(|v| F17::new(v).square()).collect();
    for v in 0..MODULUS {
        let x = F17::new(v);
        let mut y = x;
        let ok = sqrt_in_place(&mut y);
        assert_eq!(ok, squares.contains(&x), "value {}", v);
        if ok {
            assert_eq!(y.square(), x);
        } else {
            assert_eq!(y, x);
        }
    }
}

#[test]
fn cyclotomic_exp_large_exponent() {
    // 2^64 + 3 == 3 (mod 16), the order of the group.
    assert_eq!(cyclotomic_exp(&F17::new(3), &[3, 1]), pow(&F17::new(3), &[3]));
    assert_eq!(cyclotomic_exp(&F17::new(5), &[u64::MAX]), pow(&F17::new(5), &[u64::MAX]));
}
