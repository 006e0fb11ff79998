use fil_gadgets::election::ComponentPrivateInputs;
use fil_gadgets::window::{
    challenge_from_digest, challenge_row, challenged_sector_count, comm_r_row, field_repr_of_u64,
    generate_challenges, window_post_k, PublicInputs, PublicSector, SetupParams,
    VanillaPublicInputs, SECTOR_CHALLENGES, SECTOR_NODES_2_KIB, SECTOR_NODES_32_GIB,
    SECTOR_NODES_32_KIB, SECTOR_NODES_64_GIB,
};
use sha2::{Digest, Sha256};

fn expected_challenges(
    randomness: &[u8; 32],
    sector_index: usize,
    sector_id: u64,
    k: usize,
    partition_sectors: usize,
    sector_nodes: u64,
) -> [u32; 10] {
    let mut out = [0u32; 10];
    let mut index = (k * partition_sectors + sector_index) * SECTOR_CHALLENGES;
    for c in out.iter_mut() {
        let mut hasher = Sha256::new();
        hasher.update(randomness);
        hasher.update(sector_id.to_le_bytes());
        hasher.update(index.to_le_bytes());
        let digest = hasher.finalize();
        let uint64 = u64::from_le_bytes(digest[..8].try_into().unwrap());
        *c = (uint64 % sector_nodes) as u32;
        index += 1;
    }
    out
}

#[test]
fn sector_counts() {
    assert_eq!(challenged_sector_count::<SECTOR_NODES_32_GIB>(), 2349);
    assert_eq!(challenged_sector_count::<SECTOR_NODES_64_GIB>(), 2300);
    assert_eq!(challenged_sector_count::<SECTOR_NODES_2_KIB>(), 2);
}

#[test]
fn public_input_rows() {
    assert_eq!(comm_r_row(0), 0);
    assert_eq!(comm_r_row(3), 33);
    assert_eq!(challenge_row(0, 0), 1);
    assert_eq!(challenge_row(3, 4), 38);
    assert_eq!(challenge_row(1, 9), 21);
}

#[test]
fn circuit_sizes() {
    assert_eq!(window_post_k::<SECTOR_NODES_2_KIB>(), 11);
    assert_eq!(window_post_k::<SECTOR_NODES_32_KIB>(), 12);
}

#[test]
fn challenges_hash_randomness_id_and_index() {
    let randomness = [7u8; 32];
    let got = generate_challenges::<SECTOR_NODES_2_KIB>(&randomness, 1, 42, 3);
    assert_eq!(got, expected_challenges(&randomness, 1, 42, 3, 2, 64));
    assert!(got.iter().all(|c| (*c as usize) < SECTOR_NODES_2_KIB));
    let big = generate_challenges::<SECTOR_NODES_32_GIB>(&randomness, 5, 1, 2);
    assert_eq!(big, expected_challenges(&randomness, 5, 1, 2, 2349, 1 << 30));
}

#[test]
fn challenge_from_digest_reduces_the_first_eight_bytes() {
    let mut digest = [0u8; 32];
    digest[0] = 100;
    digest[8] = 0xff;
    assert_eq!(challenge_from_digest(&digest, 64), 36);
    let digest = [0xffu8; 32];
    assert_eq!(challenge_from_digest(&digest, 1 << 31), 0x7fff_ffff);
}

fn vanilla(num_sectors: u64, k: Option<usize>) -> VanillaPublicInputs {
    VanillaPublicInputs {
        randomness: [3u8; 32],
        prover_id: [4u8; 32],
        sectors: (0..num_sectors)
            .map(|i| PublicSector { id: 100 + i, comm_r: [i as u8; 32] })
            .collect(),
        k,
    }
}

fn setup() -> SetupParams {
    SetupParams { sector_size: 2048, challenge_count: SECTOR_CHALLENGES, sector_count: 2 }
}

#[test]
fn public_inputs_of_a_partition() {
    let pub_inputs = PublicInputs::<SECTOR_NODES_2_KIB>::from(setup(), vanilla(6, Some(1)));
    assert_eq!(pub_inputs.comms_r.len(), 2);
    assert_eq!(pub_inputs.challenges.len(), 2);
    for (i, (comm_r, challenges)) in
        pub_inputs.comms_r.iter().zip(pub_inputs.challenges.iter()).enumerate()
    {
        // each challenged sector carries its own `comm_r`
        assert_eq!(*comm_r, Some([(2 + i) as u8; 32]));
        let expected = expected_challenges(&[3u8; 32], i, 100 + 2 + i as u64, 1, 2, 64);
        assert_eq!(challenges.to_vec(), expected.iter().map(|c| Some(*c)).collect::<Vec<_>>());
    }
    let first = PublicInputs::<SECTOR_NODES_2_KIB>::from(setup(), vanilla(2, None));
    assert_eq!(
        first.challenges[0].to_vec(),
        expected_challenges(&[3u8; 32], 0, 100, 0, 2, 64).iter().map(|c| Some(*c)).collect::<Vec<_>>()
    );
}

#[test]
fn empty_public_inputs() {
    let empty = PublicInputs::<SECTOR_NODES_2_KIB>::empty();
    assert_eq!(empty.comms_r, vec![None; 2]);
    assert_eq!(empty.challenges, vec![[None; 10]; 2]);
}

#[test]
fn public_inputs_as_an_instance_column() {
    let pub_inputs = PublicInputs::<SECTOR_NODES_2_KIB>::from(setup(), vanilla(4, Some(1)));
    let columns = pub_inputs.to_vec();
    assert_eq!(columns.len(), 1);
    let column = &columns[0];
    assert_eq!(column.len(), 22);
    for i in 0..2 {
        assert_eq!(column[comm_r_row(i)], pub_inputs.comms_r[i].unwrap());
        for j in 0..10 {
            let c = pub_inputs.challenges[i][j].unwrap();
            let mut repr = [0u8; 32];
            repr[..4].copy_from_slice(&c.to_le_bytes());
            assert_eq!(column[challenge_row(i, j)], repr);
        }
    }
    assert_eq!(field_repr_of_u64(0x0102), {
        let mut r = [0u8; 32];
        r[0] = 2;
        r[1] = 1;
        r
    });
}

#[test]
fn component_private_inputs_are_empty() {
    let _inputs: ComponentPrivateInputs = Default::default();
}
