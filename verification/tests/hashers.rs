use fil_gadgets::sha256::{Sha256Function, Sha256Hasher, HASHER_NAME};
use fil_gadgets::sha256_bits::{be_bits_in_le_byte_order, le_bits_in_be_byte_order};
use fil_gadgets::sha256_domain::Sha256Domain;
use sha2::{Digest, Sha256};
use std::cmp::Ordering;

fn trimmed_sha256(data: &[u8]) -> [u8; 32] {
    let mut digest: [u8; 32] = Sha256::digest(data).into();
    digest[31] &= 0b0011_1111;
    digest
}

#[test]
fn test_sha256_vanilla_all_fields() {
    // Test two one-block and two two-block preimages.
    let preimages = [vec![1u8], vec![0, 55, 0, 0], vec![1; 64], vec![1; 100]];
    for preimage in &preimages {
        let digest: [u8; 32] = Sha256Function::hash_data(preimage).into();
        assert_eq!(digest, trimmed_sha256(preimage));
        let mut hasher = Sha256Function::new();
        hasher.write(preimage);
        assert_eq!(hasher.hash().state, digest);
    }
}

#[test]
fn hash_of_abc_is_the_trimmed_sha256_digest() {
    let d = Sha256Function::hash_data(b"abc");
    let mut expected = [
        0xba, 0x78, 0x16, 0xbf, 0x8f, 0x01, 0xcf, 0xea, 0x41, 0x41, 0x40, 0xde, 0x5d, 0xae, 0x22,
        0x23, 0xb0, 0x03, 0x61, 0xa3, 0x96, 0x17, 0x7a, 0x9c, 0xb4, 0x10, 0xff, 0x61, 0xf2, 0x00,
        0x15, 0xad,
    ];
    expected[31] = 0x2d;
    assert_eq!(d.state, expected);
}

#[test]
fn trim_to_fr32_clears_two_top_bits() {
    let mut d = Sha256Domain::from([0xffu8; 32]);
    d.trim_to_fr32();
    assert_eq!(d.state[31], 0x3f);
    assert_eq!(d.state[30], 0xff);
    let once = d;
    d.trim_to_fr32();
    assert_eq!(d.state, once.state);
}

#[test]
fn node_and_hash2_agree_on_a_fresh_hasher() {
    let a = Sha256Domain::from([1u8; 32]);
    let b = Sha256Domain::from([2u8; 32]);
    let mut hasher = Sha256Function::new();
    let node = hasher.node(a, b, 0);
    let h2 = Sha256Function::hash2(&a, &b);
    assert_eq!(node.state, h2.state);
    let mut both = vec![1u8; 32];
    both.extend_from_slice(&[2u8; 32]);
    assert_eq!(h2.state, trimmed_sha256(&both));
    let mut hasher = Sha256Function::new();
    assert_eq!(hasher.multi_node(&[a, b], 0).state, h2.state);
}

#[test]
fn node_hashes_what_was_written_before() {
    let a = Sha256Domain::from([3u8; 32]);
    let b = Sha256Domain::from([4u8; 32]);
    let mut hasher = Sha256Function::new();
    hasher.write(&[9, 9]);
    let node = hasher.node(a, b, 1);
    let mut data = vec![9u8, 9];
    data.extend_from_slice(&[3u8; 32]);
    data.extend_from_slice(&[4u8; 32]);
    assert_eq!(node.state, trimmed_sha256(&data));
    hasher.reset();
    assert_eq!(hasher.hash().state, trimmed_sha256(&[]));
}

#[test]
fn leaf_is_its_own_hash() {
    let a = Sha256Domain::from([5u8; 32]);
    let mut hasher = Sha256Function::new();
    assert_eq!(hasher.leaf(a).state, a.state);
}

#[test]
fn domain_bytes_and_slices() {
    let mut bytes = [0u8; 32];
    for (i, b) in bytes.iter_mut().enumerate() {
        *b = i as u8;
    }
    let d = Sha256Domain::from_slice(&bytes);
    assert_eq!(Sha256Domain::byte_len(), 32);
    let back: [u8; 32] = d.into();
    assert_eq!(back, bytes);
    assert_eq!(d.as_bytes(), &bytes[..]);
    let mut out = [0u8; 32];
    d.copy_to_slice(&mut out);
    assert_eq!(out, bytes);
    assert_eq!(Sha256Domain::default().state, [0u8; 32]);
}

#[test]
fn domain_debug_text_is_hex() {
    let mut bytes = [0u8; 32];
    bytes[0] = 0xab;
    bytes[31] = 0x0f;
    let text = Sha256Domain::from(bytes).debug_string();
    assert_eq!(
        text,
        "Sha256Domain(ab0000000000000000000000000000000000000000000000000000000000000f)"
    );
}

#[test]
fn domain_order_is_lexicographic_on_bytes() {
    let mut x = [0u8; 32];
    let mut y = [0u8; 32];
    x[0] = 1;
    y[1] = 200;
    let (dx, dy) = (Sha256Domain::from(x), Sha256Domain::from(y));
    assert_eq!(dx.partial_cmp(&dy), Some(Ordering::Greater));
    assert_eq!(dy.partial_cmp(&dx), Some(Ordering::Less));
    assert_eq!(dx.partial_cmp(&dx), Some(Ordering::Equal));
    assert!(dx == dx && dx != dy);
    assert_eq!(dx.cmp(&dy), x.cmp(&y));
}

#[test]
fn hasher_name() {
    assert_eq!(Sha256Hasher::name(), "sha256_hasher");
    assert_eq!(HASHER_NAME, "sha256_hasher");
}

#[test]
fn preimage_bit_order_reverses_bytes_and_pads() {
    let order = le_bits_in_be_byte_order(10);
    assert_eq!(order.len(), 16);
    assert_eq!(
        order,
        vec![
            Some(7),
            Some(6),
            Some(5),
            Some(4),
            Some(3),
            Some(2),
            Some(1),
            Some(0),
            None,
            None,
            None,
            None,
            None,
            None,
            Some(9),
            Some(8)
        ]
    );
    assert!(le_bits_in_be_byte_order(0).is_empty());
}

#[test]
fn preimage_order_yields_msb_first_bytes() {
    // The little-endian bits of the bytes [0x01, 0x80].
    let bytes = [0x01u8, 0x80];
    let le_bits: Vec<bool> = bytes.iter().flat_map(|b| (0..8).map(move |i| b >> i & 1 == 1)).collect();
    let order = le_bits_in_be_byte_order(le_bits.len());
    let fed: Vec<bool> = order.iter().map(|o| o.map_or(false, |k| le_bits[k])).collect();
    let msb_first: Vec<bool> =
        bytes.iter().flat_map(|b| (0..8).rev().map(move |i| b >> i & 1 == 1)).collect();
    assert_eq!(fed, msb_first);
}

#[test]
fn digest_order_takes_the_field_capacity() {
    let order = be_bits_in_le_byte_order(256, 254);
    assert_eq!(order.len(), 254);
    assert_eq!(&order[..9], &[7, 6, 5, 4, 3, 2, 1, 0, 15]);
    assert_eq!(order[253], 250);
    assert_eq!(be_bits_in_le_byte_order(16, 100).len(), 16);
    // A shorter last chunk is reversed within itself, as `chunks(8)` does.
    assert_eq!(be_bits_in_le_byte_order(10, 10), vec![7, 6, 5, 4, 3, 2, 1, 0, 9, 8]);
}

#[test]
fn packed_digest_bits_are_the_trimmed_digest() {
    let digest: [u8; 32] = Sha256::digest(b"filecoin").into();
    let msb_first: Vec<bool> =
        digest.iter().flat_map(|b| (0..8).rev().map(move |i| b >> i & 1 == 1)).collect();
    let order = be_bits_in_le_byte_order(256, 254);
    let le_bits: Vec<bool> = order.iter().map(|k| msb_first[*k]).collect();
    let mut packed = [0u8; 32];
    for (i, bit) in le_bits.iter().enumerate() {
        if *bit {
            packed[i / 8] |= 1 << (i % 8);
        }
    }
    assert_eq!(packed, trimmed_sha256(b"filecoin"));
}

#[test]
fn hasher_streams_writes_and_clones_its_state() {
    let data: Vec<u8> = (0..150u8).collect();
    let mut hasher = Sha256Function::new();
    hasher.write(&data[..7]);
    hasher.write(&data[7..70]);
    let copy = hasher.clone();
    hasher.write(&data[70..]);
    // Hashing leaves the state as it is.
    assert_eq!(hasher.hash().state, trimmed_sha256(&data));
    assert_eq!(hasher.hash().state, trimmed_sha256(&data));
    let mut copy = copy;
    assert_eq!(copy.hash().state, trimmed_sha256(&data[..70]));
    let fresh: Sha256Function = Default::default();
    let mut fresh = fresh;
    assert_eq!(fresh.hash().state, trimmed_sha256(&[]));
}
