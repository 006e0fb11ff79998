use ff::{Field, PrimeField};
use fil_gadgets::bits::{i2lebsp, lebs2ip, le_bytes_of, u64_from_le_bytes};
use fil_gadgets::compression::{xor_upper_sigma, AbcdVar, EfghVar, RoundWordDense, RoundWordSpread};
use fil_gadgets::select::select;
use fil_gadgets::uint32::{
    bytes_le_bits, repr_to_u32s, strip_bits, u32_from_le_bytes, u32_le_bits, u32_to_le_bytes,
    u32s_le_bits, u32s_to_repr,
};
use pasta_curves::Fp;
use rand_core::SeedableRng;
use rand_xorshift::XorShiftRng;

const TEST_SEED: [u8; 16] = [
    0x59, 0x62, 0xbe, 0x5d, 0x76, 0x3d, 0x31, 0x8d, 0x17, 0xdb, 0x37, 0x32, 0x54, 0x06, 0xbc, 0xe5,
];

#[test]
fn test_select_chip() {
    for len in [2usize, 4, 8, 64] {
        let bit_len = len.trailing_zeros() as usize;
        let arr: Vec<u64> = (0..len as u64).collect();
        for index in 0..len {
            let bits: Vec<bool> = (0..bit_len).map(|i| index >> i & 1 == 1).collect();
            assert_eq!(select(&arr, &bits), arr[index]);
        }
    }
}

#[test]
fn select_with_no_bits_returns_the_only_element() {
    assert_eq!(select(&[7u8], &[]), 7);
}

#[test]
fn select_reads_bits_least_significant_first() {
    let arr = [10u32, 11, 12, 13, 14, 15, 16, 17];
    // bits (1, 0, 1) little-endian is index 5
    assert_eq!(select(&arr, &[true, false, true]), 15);
    assert_eq!(select(&arr, &[false, false, true]), 14);
    assert_eq!(select(&arr, &[true, true, true]), 17);
}

fn check_u32_chips(value: Fp) {
    let repr: [u8; 32] = value.to_repr();
    let u32s = repr_to_u32s(&repr);
    let expected_u32s: Vec<u32> = repr
        .chunks(4)
        .map(|bytes| u32::from_le_bytes(bytes.try_into().unwrap()))
        .collect();
    assert_eq!(u32s, expected_u32s);

    let packed = u32s_to_repr(&u32s);
    let packed = Fp::from_repr(packed).unwrap();
    assert_eq!(packed, value);

    let stripped = strip_bits(u32s[0]);
    let mut stripped_bytes: [u8; 4] = repr[..4].try_into().unwrap();
    stripped_bytes[3] &= 0b0011_1111;
    assert_eq!(stripped, u32::from_le_bytes(stripped_bytes));
}

#[test]
fn test_u32_chips() {
    let mut rng = XorShiftRng::from_seed(TEST_SEED);
    // Test using a random field element.
    check_u32_chips(Fp::random(&mut rng));
    // Test using the largest field element `p - 1`.
    check_u32_chips(Fp::zero() - Fp::one());
}

#[test]
fn binary_decomposition_bits_are_the_repr_bits() {
    let repr: [u8; 32] = (Fp::zero() - Fp::one()).to_repr();
    let limbs = repr_to_u32s(&repr);
    let bits = u32s_le_bits(&limbs);
    assert_eq!(bits.len(), 256);
    assert_eq!(bits, bytes_le_bits(&repr));
    for (i, bit) in bits.iter().enumerate() {
        assert_eq!(*bit, repr[i / 8] >> (i % 8) & 1 == 1);
    }
}

#[test]
fn u32_limb_bytes_round_trip() {
    for v in [0u32, 1, 0x1234_5678, u32::MAX] {
        let bytes = u32_to_le_bytes(v);
        assert_eq!(bytes, v.to_le_bytes().to_vec());
        assert_eq!(u32_from_le_bytes(&bytes), v);
    }
}

#[test]
fn u32_bits_pack_to_the_value() {
    let v = 0b1011_0000_0000_0000_0000_0000_1000_0101u32;
    let bits = u32_le_bits(v);
    assert_eq!(bits.len(), 32);
    assert!(bits[0] && !bits[1] && bits[2] && bits[7] && bits[28] && bits[29] && !bits[30] && bits[31]);
    assert_eq!(lebs2ip(&bits), v as u64);
    assert_eq!(bytes_le_bits(&v.to_le_bytes()), bits);
}

#[test]
fn strip_bits_clears_the_two_top_bits() {
    assert_eq!(strip_bits(u32::MAX), 0x3fff_ffff);
    assert_eq!(strip_bits(0xc000_0000), 0);
    assert_eq!(strip_bits(0x4000_0001), 1);
    assert_eq!(strip_bits(0x1234_5678), 0x1234_5678);
}

#[test]
fn pieces_split_a_word() {
    let w = 0xdead_beefu32;
    let bits: Vec<bool> = (0..32).map(|i| w >> i & 1 == 1).collect();
    let abcd = AbcdVar::pieces(w);
    let lens: Vec<usize> = abcd.iter().map(|p| p.len()).collect();
    assert_eq!(lens, vec![2, 11, 3, 3, 3, 10]);
    assert_eq!(abcd.concat(), bits);
    let efgh = EfghVar::pieces(w);
    let lens: Vec<usize> = efgh.iter().map(|p| p.len()).collect();
    assert_eq!(lens, vec![3, 3, 2, 3, 14, 7]);
    assert_eq!(efgh.concat(), bits);
    assert_eq!(AbcdVar::c_mid_range(), 16..19);
    assert_eq!(EfghVar::c_range(), 11..25);
}

fn spread(bits: &[bool]) -> Vec<bool> {
    bits.iter().flat_map(|b| [*b, false]).collect()
}

fn word_bits(w: u32) -> Vec<bool> {
    (0..32).map(|i| w >> i & 1 == 1).collect()
}

#[test]
fn upper_sigma_0_of_spread_pieces() {
    for w in [0u32, 1, 0x6a09_e667, 0xdead_beef, u32::MAX] {
        let b = word_bits(w);
        let var = AbcdVar {
            a: Some(spread(&b[0..2])),
            b: Some(spread(&b[2..13])),
            c_lo: Some(spread(&b[13..16])),
            c_mid: Some(spread(&b[16..19])),
            c_hi: Some(spread(&b[19..22])),
            d: Some(spread(&b[22..32])),
        };
        let out = var.xor_upper_sigma().unwrap();
        assert_eq!(out.len(), 64);
        let sigma = w.rotate_right(2) ^ w.rotate_right(13) ^ w.rotate_right(22);
        let even: Vec<bool> = (0..32).map(|i| out[2 * i]).collect();
        assert_eq!(even, word_bits(sigma));
    }
}

#[test]
fn upper_sigma_1_of_spread_pieces() {
    for w in [0u32, 1, 0x510e_527f, 0xdead_beef, u32::MAX] {
        let b = word_bits(w);
        let var = EfghVar {
            a_lo: Some(spread(&b[0..3])),
            a_hi: Some(spread(&b[3..6])),
            b_lo: Some(spread(&b[6..8])),
            b_hi: Some(spread(&b[8..11])),
            c: Some(spread(&b[11..25])),
            d: Some(spread(&b[25..32])),
        };
        let out = var.xor_upper_sigma().unwrap();
        let sigma = w.rotate_right(6) ^ w.rotate_right(11) ^ w.rotate_right(25);
        let even: Vec<bool> = (0..32).map(|i| out[2 * i]).collect();
        assert_eq!(even, word_bits(sigma));
        // The odd bits are the majority of the three rotations.
        let (r0, r1, r2) = (w.rotate_right(6), w.rotate_right(11), w.rotate_right(25));
        let maj = (r0 & r1) | (r0 & r2) | (r1 & r2);
        let odd: Vec<bool> = (0..32).map(|i| out[2 * i + 1]).collect();
        assert_eq!(odd, word_bits(maj));
    }
}

#[test]
fn xor_upper_sigma_adds_the_three_rotations() {
    // a = 1 (bit 0), b = c = d = 0: the rotations place `a` at bit 60, 38 and 20.
    let mut a = vec![false; 4];
    a[0] = true;
    let b = vec![false; 22];
    let c = vec![false; 18];
    let d = vec![false; 20];
    let out = xor_upper_sigma(&a, &b, &c, &d);
    let expected = (1u64 << 60) + (1u64 << 38) + (1u64 << 20);
    assert_eq!(lebs2ip(&out), expected);
}

#[test]
fn round_word_values() {
    assert_eq!(RoundWordDense(Some(0x5678), Some(0x1234)).value(), Some(0x1234_5678));
    assert_eq!(RoundWordDense(Some(1), None).value(), None);
    assert_eq!(
        RoundWordSpread(Some(0x9abc_def0), Some(0x1234_5678)).value(),
        Some(0x1234_5678_9abc_def0)
    );
    assert_eq!(RoundWordSpread(None, Some(1)).value(), None);
}

#[test]
fn bit_and_byte_conversions() {
    assert_eq!(i2lebsp(0b1101, 4), vec![true, false, true, true]);
    assert_eq!(i2lebsp(u64::MAX, 64).len(), 64);
    assert_eq!(lebs2ip(&i2lebsp(0x0123_4567_89ab_cdef, 64)), 0x0123_4567_89ab_cdef);
    assert_eq!(le_bytes_of(0x0102_0304_0506_0708, 8), vec![8, 7, 6, 5, 4, 3, 2, 1]);
    assert_eq!(le_bytes_of(0x0102, 4), vec![2, 1, 0, 0]);
    assert_eq!(u64_from_le_bytes(&[8, 7, 6, 5, 4, 3, 2, 1]), 0x0102_0304_0506_0708);
    assert_eq!(u64_from_le_bytes(&[]), 0);
}

#[test]
fn u32_bits_pack_back_to_the_value() {
    for v in [0u32, 1, 0x8000_0000, 0xdead_beef, u32::MAX] {
        let bits = u32_le_bits(v);
        assert_eq!(bits.len(), 32);
        assert_eq!(lebs2ip(&bits), v as u64);
    }
}

#[test]
fn strip_gate_packings_agree() {
    for v in [0u32, 0x3fff_ffff, 0x4000_0000, 0xc000_0001, 0xdead_beef, u32::MAX] {
        let bits = u32_le_bits(v);
        assert_eq!(lebs2ip(&bits), v as u64);
        assert_eq!(lebs2ip(&bits[..30]), strip_bits(v) as u64);
        assert_eq!(bits[..30].to_vec(), i2lebsp(v as u64, 30));
    }
}

#[test]
fn upper_sigma_of_unknown_pieces_is_unknown() {
    let b = word_bits(0xdead_beef);
    let mut abcd = AbcdVar {
        a: Some(spread(&b[0..2])),
        b: Some(spread(&b[2..13])),
        c_lo: Some(spread(&b[13..16])),
        c_mid: None,
        c_hi: Some(spread(&b[19..22])),
        d: Some(spread(&b[22..32])),
    };
    assert_eq!(abcd.spread_c(), None);
    assert_eq!(abcd.spread_a(), Some(spread(&b[0..2])));
    assert_eq!(abcd.xor_upper_sigma(), None);
    abcd.c_mid = Some(spread(&b[16..19]));
    assert_eq!(abcd.spread_c(), Some(spread(&b[13..22])));
    assert!(abcd.xor_upper_sigma().is_some());
    let efgh = EfghVar { a_lo: None, a_hi: None, b_lo: None, b_hi: None, c: None, d: None };
    assert_eq!(efgh.spread_a(), None);
    assert_eq!(efgh.xor_upper_sigma(), None);
}
