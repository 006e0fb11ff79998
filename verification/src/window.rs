//! Window PoSt: which sectors and nodes a partition challenges, and the public inputs of
//! its circuit.
//!
//! A field element is held here by its canonical 32-byte little-endian representation.

use vstd::prelude::*;
use vstd::arithmetic::power2::*;
use vstd::arithmetic::mul::*;
use crate::bits::{bytes_value, le_bytes, le_bytes_of, u64_from_le_bytes};
use crate::sha256::{sha256, sha256_digest};

verus! {

/// The number of Merkle challenges per challenged sector.
pub const SECTOR_CHALLENGES: usize = 10;

/// The number of 32-byte nodes of a 2 KiB sector.
pub const SECTOR_NODES_2_KIB: usize = 64;

/// The number of 32-byte nodes of a 4 KiB sector.
pub const SECTOR_NODES_4_KIB: usize = 128;

/// The number of 32-byte nodes of a 16 KiB sector.
pub const SECTOR_NODES_16_KIB: usize = 512;

/// The number of 32-byte nodes of a 32 KiB sector.
pub const SECTOR_NODES_32_KIB: usize = 1024;

/// The number of 32-byte nodes of a 32 GiB sector.
pub const SECTOR_NODES_32_GIB: usize = 1073741824;

/// The number of 32-byte nodes of a 64 GiB sector.
pub const SECTOR_NODES_64_GIB: usize = 2147483648;

/// The number of challenged sectors per partition for sectors of `sector_nodes` nodes.
pub open spec fn sector_count_for(sector_nodes: usize) -> usize {
    if sector_nodes == SECTOR_NODES_32_GIB {
        2349
    } else if sector_nodes == SECTOR_NODES_64_GIB {
        2300
    } else {
        2
    }
}

/// A Window PoSt partition challenges 2349 sectors of 32 GiB (`2^30` nodes), 2300 sectors
/// of 64 GiB (`2^31` nodes), and 2 sectors of every other size, among them the 2, 4, 16 and
/// 32 KiB sizes that the circuit supports.
pub proof fn lemma_sector_counts(sector_nodes: usize)
    ensures
        sector_count_for(1073741824) == 2349,
        sector_count_for(2147483648) == 2300,
        sector_nodes != 1073741824 && sector_nodes != 2147483648 ==> sector_count_for(sector_nodes)
            == 2,
        sector_count_for(64) == 2,
        sector_count_for(128) == 2,
        sector_count_for(512) == 2,
        sector_count_for(1024) == 2,
{
}

/// The number of challenged sectors per partition.
pub fn challenged_sector_count<const SECTOR_NODES: usize>() -> (n: usize)
    ensures
        n == sector_count_for(SECTOR_NODES),
{
    if SECTOR_NODES == SECTOR_NODES_32_GIB {
        2349
    } else if SECTOR_NODES == SECTOR_NODES_64_GIB {
        2300
    } else {
        2
    }
}

/// The row of sector `i`'s `comm_r` among the public inputs: each sector takes its
/// `comm_r` and then its challenges.
pub open spec fn comm_r_row_of(sector_index: nat) -> nat {
    sector_index * (1 + SECTOR_CHALLENGES) as nat
}

/// The row of sector `i`'s challenge `j` among the public inputs.
pub open spec fn challenge_row_of(sector_index: nat, challenge_index: nat) -> nat {
    comm_r_row_of(sector_index) + 1 + challenge_index
}

/// The public-input rows of `m` sectors tile rows `0 .. 11m` without overlap: every
/// sector's `comm_r` row and its ten challenge rows lie below `11m`, and no two of these
/// rows, of the same sector or of different ones, coincide.
pub proof fn lemma_rows_tile(m: nat, i1: nat, j1: nat, i2: nat, j2: nat)
    requires
        i1 < m,
        i2 < m,
        j1 < SECTOR_CHALLENGES,
        j2 < SECTOR_CHALLENGES,
    ensures
        comm_r_row_of(i1) < 11 * m,
        challenge_row_of(i1, j1) < 11 * m,
        comm_r_row_of(i1) != challenge_row_of(i2, j2),
        comm_r_row_of(i1) == comm_r_row_of(i2) ==> i1 == i2,
        challenge_row_of(i1, j1) == challenge_row_of(i2, j2) ==> i1 == i2 && j1 == j2,
{
    assert((1 + SECTOR_CHALLENGES) as nat == 11);
    assert(comm_r_row_of(i1) == 11 * i1 && comm_r_row_of(i2) == 11 * i2);
    assert(11 * i1 + 11 <= 11 * m) by (nonlinear_arith)
        requires
            i1 < m,
    ;
    if comm_r_row_of(i1) == challenge_row_of(i2, j2) {
        assert(11 * i1 == 11 * i2 + 1 + j2);
        vstd::arithmetic::div_mod::lemma_fundamental_div_mod_converse(
            (11 * i1) as int,
            11,
            i1 as int,
            0,
        );
        vstd::arithmetic::div_mod::lemma_fundamental_div_mod_converse(
            (11 * i1) as int,
            11,
            i2 as int,
            (1 + j2) as int,
        );
    }
    if challenge_row_of(i1, j1) == challenge_row_of(i2, j2) {
        vstd::arithmetic::div_mod::lemma_fundamental_div_mod_converse(
            (11 * i1 + 1 + j1) as int,
            11,
            i1 as int,
            (1 + j1) as int,
        );
        vstd::arithmetic::div_mod::lemma_fundamental_div_mod_converse(
            (11 * i1 + 1 + j1) as int,
            11,
            i2 as int,
            (1 + j2) as int,
        );
    }
}

/// The circuit size `k` (the circuit has `2^k` rows) for the supported sector sizes:
/// 11 for 2 KiB sectors, 12 for 4, 16 and 32 KiB sectors.
pub fn window_post_k<const SECTOR_NODES: usize>() -> (k: u32)
    requires
        SECTOR_NODES == SECTOR_NODES_2_KIB || SECTOR_NODES == SECTOR_NODES_4_KIB || SECTOR_NODES
            == SECTOR_NODES_16_KIB || SECTOR_NODES == SECTOR_NODES_32_KIB,
    ensures
        k == if SECTOR_NODES == SECTOR_NODES_2_KIB {
            11u32
        } else {
            12u32
        },
{
    if SECTOR_NODES == SECTOR_NODES_2_KIB {
        11
    } else {
        12
    }
}

/// The absolute row of a challenged sector's `comm_r` public input.
pub fn comm_r_row(sector_index: usize) -> (row: usize)
    requires
        comm_r_row_of(sector_index as nat) <= usize::MAX,
    ensures
        row == comm_r_row_of(sector_index as nat),
{
    sector_index * (1 + SECTOR_CHALLENGES)
}

/// The absolute row of a challenged sector's Merkle challenge public input.
pub fn challenge_row(sector_index: usize, challenge_index: usize) -> (row: usize)
    requires
        challenge_row_of(sector_index as nat, challenge_index as nat) <= usize::MAX,
    ensures
        row == challenge_row_of(sector_index as nat, challenge_index as nat),
{
    comm_r_row(sector_index) + 1 + challenge_index
}

/// The bytes hashed for challenge number `challenge_index` (counted over all partitions)
/// of the sector `sector_id`: the randomness, the sector id as 8 little-endian bytes and
/// the challenge index as a little-endian `usize`.
pub open spec fn challenge_preimage(randomness: Seq<u8>, sector_id: u64, challenge_index: nat) -> Seq<
    u8,
> {
    randomness + le_bytes(sector_id as nat, 8) + le_bytes(
        challenge_index,
        (usize::BITS / 8) as nat,
    )
}

/// The challenged node that a digest selects: its first 8 bytes as a little-endian
/// number, modulo the number of nodes, as a `u32`.
pub open spec fn digest_challenge(digest: Seq<u8>, sector_nodes: nat) -> u32 {
    (bytes_value(digest.take(8)) % sector_nodes) as u32
}

/// The index of the first challenge of a partition's sector, counted over all partitions.
pub open spec fn first_challenge_index(k: nat, partition_sectors: nat, sector_index: nat) -> nat {
    (k * partition_sectors + sector_index) * (SECTOR_CHALLENGES as nat)
}

/// Challenge `j` of a partition's sector.
pub open spec fn generated_challenge(
    randomness: Seq<u8>,
    sector_index: nat,
    sector_id: u64,
    k: nat,
    j: nat,
    sector_nodes: usize,
) -> u32 {
    digest_challenge(
        sha256(
            challenge_preimage(
                randomness,
                sector_id,
                first_challenge_index(k, sector_count_for(sector_nodes) as nat, sector_index) + j,
            ),
        ),
        sector_nodes as nat,
    )
}

/// A challenge is a node of the sector: below the number of nodes, when the sector has at
/// most `2^32` nodes.
pub proof fn lemma_challenge_is_node(digest: Seq<u8>, sector_nodes: nat)
    requires
        0 < sector_nodes <= 0x1_0000_0000,
    ensures
        digest_challenge(digest, sector_nodes) < sector_nodes,
{
    let x = bytes_value(digest.take(8)) % sector_nodes;
    assert(x < sector_nodes);
    assert(x as u32 == x);
}

/// Different (partition, sector, challenge) triples get different challenge indices, so
/// they hash different preimages.
pub proof fn lemma_challenge_indices_distinct(
    n: nat,
    k1: nat,
    i1: nat,
    j1: nat,
    k2: nat,
    i2: nat,
    j2: nat,
)
    requires
        i1 < n,
        i2 < n,
        j1 < SECTOR_CHALLENGES,
        j2 < SECTOR_CHALLENGES,
        first_challenge_index(k1, n, i1) + j1 == first_challenge_index(k2, n, i2) + j2,
    ensures
        k1 == k2,
        i1 == i2,
        j1 == j2,
{
    let a1 = k1 * n + i1;
    let a2 = k2 * n + i2;
    assert(a1 * 10 + j1 == a2 * 10 + j2);
    vstd::arithmetic::div_mod::lemma_fundamental_div_mod_converse(
        (a1 * 10 + j1) as int,
        10,
        a1 as int,
        j1 as int,
    );
    vstd::arithmetic::div_mod::lemma_fundamental_div_mod_converse(
        (a2 * 10 + j2) as int,
        10,
        a2 as int,
        j2 as int,
    );
    vstd::arithmetic::div_mod::lemma_fundamental_div_mod_converse(a1 as int, n as int, k1 as int, i1 as int);
    vstd::arithmetic::div_mod::lemma_fundamental_div_mod_converse(a2 as int, n as int, k2 as int, i2 as int);
}

/// The challenged node that a digest selects: `u64::from_le_bytes(digest[..8]) %
/// sector_nodes`, as a `u32`.
pub fn challenge_from_digest(digest: &[u8; 32], sector_nodes: u64) -> (challenge: u32)
    requires
        sector_nodes > 0,
    ensures
        challenge == digest_challenge(digest@, sector_nodes as nat),
{
    let mut first: Vec<u8> = Vec::new();
    let mut i: usize = 0;
    while i < 8
        invariant
            i <= 8,
            digest@.len() == 32,
            first@ == digest@.take(i as int),
        decreases 8 - i,
    {
        first.push(digest[i]);
        i += 1;
        assert(first@ =~= digest@.take(i as int));
    }
    let uint64 = u64_from_le_bytes(&first);
    (uint64 % sector_nodes) as u32
}

/// The Merkle challenges of the sector at `sector_index` of partition `k`, for sector
/// `sector_id` and the canonical representation `randomness` of the randomness: challenge
/// `j` hashes the randomness, the sector id and the challenge's index over all partitions
/// with SHA-256, and reduces the digest's first 8 bytes modulo the number of nodes.
pub fn generate_challenges<const SECTOR_NODES: usize>(
    randomness: &[u8; 32],
    sector_index: usize,
    sector_id: u64,
    k: usize,
) -> (challenges: [u32; 10])
    requires
        SECTOR_NODES > 0,
        first_challenge_index(k as nat, sector_count_for(SECTOR_NODES) as nat, sector_index as nat)
            + SECTOR_CHALLENGES <= usize::MAX,
    ensures
        forall|j: int|
            0 <= j < 10 ==> #[trigger] challenges@[j] == generated_challenge(
                randomness@,
                sector_index as nat,
                sector_id,
                k as nat,
                j as nat,
                SECTOR_NODES,
            ),
{
    let sector_nodes = SECTOR_NODES as u64;
    let mut prefix: Vec<u8> = Vec::new();
    let mut i: usize = 0;
    while i < 32
        invariant
            i <= 32,
            prefix@ == randomness@.take(i as int),
        decreases 32 - i,
    {
        prefix.push(randomness[i]);
        i += 1;
        assert(prefix@ =~= randomness@.take(i as int));
    }
    assert(randomness@.take(32) =~= randomness@);
    let id_bytes = le_bytes_of(sector_id, 8);
    let mut b: usize = 0;
    while b < 8
        invariant
            b <= 8,
            id_bytes@.len() == 8,
            prefix@ == randomness@ + id_bytes@.take(b as int),
        decreases 8 - b,
    {
        prefix.push(id_bytes[b]);
        b += 1;
        assert(prefix@ =~= randomness@ + id_bytes@.take(b as int));
    }
    assert(id_bytes@.take(8) =~= id_bytes@);
    let mut challenges = [0u32; 10];
    let partition_sectors = challenged_sector_count::<SECTOR_NODES>();
    proof {
        lemma_mul_is_commutative(k as int, partition_sectors as int);
    }
    let mut challenge_index = (k * partition_sectors + sector_index) * SECTOR_CHALLENGES;
    let ghost first = challenge_index as nat;
    let index_width = (usize::BITS / 8) as usize;
    let mut c: usize = 0;
    while c < 10
        invariant
            c <= 10,
            first == first_challenge_index(k as nat, partition_sectors as nat, sector_index as nat),
            partition_sectors == sector_count_for(SECTOR_NODES),
            challenge_index == first + c,
            first + SECTOR_CHALLENGES <= usize::MAX,
            index_width == usize::BITS / 8,
            index_width <= 8,
            sector_nodes == SECTOR_NODES,
            sector_nodes > 0,
            prefix@ == randomness@ + le_bytes(sector_id as nat, 8),
            forall|j: int|
                0 <= j < c ==> #[trigger] challenges@[j] == generated_challenge(
                    randomness@,
                    sector_index as nat,
                    sector_id,
                    k as nat,
                    j as nat,
                    SECTOR_NODES,
                ),
        decreases 10 - c,
    {
        let index_bytes = le_bytes_of(challenge_index as u64, index_width);
        let mut preimage: Vec<u8> = Vec::new();
        let mut p: usize = 0;
        while p < prefix.len()
            invariant
                p <= prefix@.len(),
                preimage@ == prefix@.take(p as int),
            decreases prefix@.len() - p,
        {
            preimage.push(prefix[p]);
            p += 1;
            assert(preimage@ =~= prefix@.take(p as int));
        }
        assert(prefix@.take(prefix@.len() as int) =~= prefix@);
        let mut q: usize = 0;
        while q < index_bytes.len()
            invariant
                q <= index_bytes@.len(),
                preimage@ == prefix@ + index_bytes@.take(q as int),
            decreases index_bytes@.len() - q,
        {
            preimage.push(index_bytes[q]);
            q += 1;
            assert(preimage@ =~= prefix@ + index_bytes@.take(q as int));
        }
        assert(index_bytes@.take(index_bytes@.len() as int) =~= index_bytes@);
        assert(preimage@ =~= challenge_preimage(randomness@, sector_id, challenge_index as nat));
        let digest = sha256_digest(&preimage);
        let challenge = challenge_from_digest(&digest, sector_nodes);
        challenges[c] = challenge;
        challenge_index += 1;
        c += 1;
    }
    challenges
}

/// The Window PoSt setup parameters that the public inputs are checked against.
pub struct SetupParams {
    /// The sector size in bytes.
    pub sector_size: u64,
    /// The number of challenges per sector.
    pub challenge_count: usize,
    /// The number of sectors per partition.
    pub sector_count: usize,
}

/// A sector of the prover: its id and its replica commitment.
pub struct PublicSector {
    pub id: u64,
    pub comm_r: [u8; 32],
}

/// The public inputs of a Window PoSt proof over all partitions.
pub struct VanillaPublicInputs {
    pub randomness: [u8; 32],
    pub prover_id: [u8; 32],
    pub sectors: Vec<PublicSector>,
    /// The partition; `None` stands for the first one.
    pub k: Option<usize>,
}

/// The partition that the inputs name.
pub open spec fn partition_of(k: Option<usize>) -> nat {
    match k {
        Some(k) => k as nat,
        None => 0,
    }
}

/// The number of sectors of partition `k` when `len` sectors are split into partitions of
/// `n` sectors.
pub open spec fn partition_len(len: nat, n: nat, k: nat) -> nat {
    if len - k * n < n {
        (len - k * n) as nat
    } else {
        n
    }
}

/// The 32-byte little-endian representation of a number below `2^64`, the canonical
/// representation of the field element with that value.
pub fn field_repr_of_u64(value: u64) -> (repr: [u8; 32])
    ensures
        repr@ == le_bytes(value as nat, 32),
{
    let low = le_bytes_of(value, 8);
    let mut repr = [0u8; 32];
    let mut i: usize = 0;
    while i < 8
        invariant
            i <= 8,
            low@ == le_bytes(value as nat, 8),
            forall|j: int| 0 <= j < i ==> repr@[j] == le_bytes(value as nat, 32)[j],
            forall|j: int| 8 <= j < 32 ==> repr@[j] == 0,
        decreases 8 - i,
    {
        repr[i] = low[i];
        i += 1;
    }
    assert forall|j: int| 8 <= j < 32 implies le_bytes(value as nat, 32)[j] == 0 by {
        lemma2_to64_rest();
        if 8 * j > 64 {
            vstd::arithmetic::power2::lemma_pow2_strictly_increases(64, (8 * j) as nat);
        }
        vstd::arithmetic::div_mod::lemma_basic_div(value as int, pow2((8 * j) as nat) as int);
    }
    assert(repr@ =~= le_bytes(value as nat, 32));
    repr
}

/// The public inputs of one Window PoSt partition: each challenged sector's `comm_r` and
/// Merkle challenges, unknown while keys are generated.
#[derive(Clone)]
pub struct PublicInputs<const SECTOR_NODES: usize> {
    pub comms_r: Vec<Option<[u8; 32]>>,
    pub challenges: Vec<[Option<u32>; 10]>,
}

impl<const SECTOR_NODES: usize> PublicInputs<SECTOR_NODES> {
    /// The public inputs of partition `k` of the prover's sectors: each challenged sector of
    /// the partition gets its own `comm_r` and its generated challenges.
    pub fn from(setup_params: SetupParams, vanilla_pub_inputs: VanillaPublicInputs) -> (pub_inputs:
        Self)
        requires
            SECTOR_NODES > 0,
            setup_params.sector_size / 32 == SECTOR_NODES,
            setup_params.challenge_count == SECTOR_CHALLENGES,
            setup_params.sector_count == sector_count_for(SECTOR_NODES),
            vanilla_pub_inputs.sectors@.len() % (setup_params.sector_count as nat) == 0,
            partition_of(vanilla_pub_inputs.k) * sector_count_for(SECTOR_NODES)
                < vanilla_pub_inputs.sectors@.len(),
            (partition_of(vanilla_pub_inputs.k) * sector_count_for(SECTOR_NODES) + partition_len(
                vanilla_pub_inputs.sectors@.len(),
                sector_count_for(SECTOR_NODES) as nat,
                partition_of(vanilla_pub_inputs.k),
            )) * SECTOR_CHALLENGES <= usize::MAX,
        ensures
            ({
                let n = sector_count_for(SECTOR_NODES) as nat;
                let k = partition_of(vanilla_pub_inputs.k);
                let m = partition_len(vanilla_pub_inputs.sectors@.len(), n, k);
                &&& pub_inputs.comms_r@.len() == m
                &&& pub_inputs.challenges@.len() == m
                &&& forall|i: int|
                    0 <= i < m ==> #[trigger] pub_inputs.comms_r@[i] == Some(
                        vanilla_pub_inputs.sectors@[k * n + i].comm_r,
                    )
                &&& forall|i: int, j: int|
                    0 <= i < m && 0 <= j < 10 ==> #[trigger] pub_inputs.challenges@[i]@[j] == Some(
                        generated_challenge(
                            vanilla_pub_inputs.randomness@,
                            i as nat,
                            vanilla_pub_inputs.sectors@[k * n + i].id,
                            k,
                            j as nat,
                            SECTOR_NODES,
                        ),
                    )
            }),
    {
        let sectors_challenged_per_partition = challenged_sector_count::<SECTOR_NODES>();
        let total_prover_sectors = vanilla_pub_inputs.sectors.len();
        let k = match vanilla_pub_inputs.k {
            Some(k) => k,
            None => 0,
        };
        let n = sectors_challenged_per_partition;
        proof {
            lemma_mul_is_commutative(k as int, n as int);
        }
        let start = k * n;
        let remaining = total_prover_sectors - start;
        let m = if remaining < n { remaining } else { n };
        let mut comms_r: Vec<Option<[u8; 32]>> = Vec::new();
        let mut challenges: Vec<[Option<u32>; 10]> = Vec::new();
        let mut sector_index: usize = 0;
        while sector_index < m
            invariant
                n == sector_count_for(SECTOR_NODES),
                k == partition_of(vanilla_pub_inputs.k),
                start == k * n,
                start < total_prover_sectors,
                total_prover_sectors == vanilla_pub_inputs.sectors@.len(),
                (start + m) * SECTOR_CHALLENGES <= usize::MAX,
                m == partition_len(total_prover_sectors as nat, n as nat, k as nat),
                start + m <= total_prover_sectors,
                SECTOR_NODES > 0,
                sector_index <= m,
                comms_r@.len() == sector_index,
                challenges@.len() == sector_index,
                forall|i: int|
                    0 <= i < sector_index ==> #[trigger] comms_r@[i] == Some(
                        vanilla_pub_inputs.sectors@[k * n + i].comm_r,
                    ),
                forall|i: int, j: int|
                    0 <= i < sector_index && 0 <= j < 10 ==> #[trigger] challenges@[i]@[j] == Some(
                        generated_challenge(
                            vanilla_pub_inputs.randomness@,
                            i as nat,
                            vanilla_pub_inputs.sectors@[k * n + i].id,
                            k as nat,
                            j as nat,
                            SECTOR_NODES,
                        ),
                    ),
            decreases m - sector_index,
        {
            let sector_id = vanilla_pub_inputs.sectors[start + sector_index].id;
            let comm_r = vanilla_pub_inputs.sectors[start + sector_index].comm_r;
            proof {
                assert(first_challenge_index(k as nat, n as nat, sector_index as nat)
                    + SECTOR_CHALLENGES <= usize::MAX) by (nonlinear_arith)
                    requires
                        start == k * n,
                        sector_index < m,
                        (start + m) * SECTOR_CHALLENGES <= usize::MAX,
                        SECTOR_CHALLENGES == 10,
                ;
            }
            let generated = generate_challenges::<SECTOR_NODES>(
                &vanilla_pub_inputs.randomness,
                sector_index,
                sector_id,
                k,
            );
            let mut row: [Option<u32>; 10] = [None; 10];
            let mut j: usize = 0;
            while j < 10
                invariant
                    j <= 10,
                    forall|q: int| 0 <= q < j ==> #[trigger] row@[q] == Some(generated@[q]),
                decreases 10 - j,
            {
                row[j] = Some(generated[j]);
                j += 1;
            }
            comms_r.push(Some(comm_r));
            challenges.push(row);
            sector_index += 1;
        }
        PublicInputs { comms_r, challenges }
    }

    /// The public inputs while keys are generated: every sector's `comm_r` and challenges
    /// unknown.
    pub fn empty() -> (pub_inputs: Self)
        ensures
            pub_inputs.comms_r@.len() == sector_count_for(SECTOR_NODES),
            pub_inputs.challenges@.len() == sector_count_for(SECTOR_NODES),
            forall|i: int|
                0 <= i < pub_inputs.comms_r@.len() ==> #[trigger] pub_inputs.comms_r@[i] is None,
            forall|i: int, j: int|
                0 <= i < pub_inputs.challenges@.len() && 0 <= j < 10
                    ==> #[trigger] pub_inputs.challenges@[i]@[j] is None,
    {
        let challenged_sector_count = challenged_sector_count::<SECTOR_NODES>();
        let mut comms_r: Vec<Option<[u8; 32]>> = Vec::new();
        let mut challenges: Vec<[Option<u32>; 10]> = Vec::new();
        let mut i: usize = 0;
        while i < challenged_sector_count
            invariant
                i <= challenged_sector_count,
                comms_r@.len() == i,
                challenges@.len() == i,
                forall|q: int| 0 <= q < i ==> #[trigger] comms_r@[q] is None,
                forall|q: int, j: int|
                    0 <= q < i && 0 <= j < 10 ==> #[trigger] challenges@[q]@[j] is None,
            decreases challenged_sector_count - i,
        {
            comms_r.push(None);
            challenges.push([None; 10]);
            i += 1;
        }
        PublicInputs { comms_r, challenges }
    }

    /// The public inputs as the circuit's instance column: each sector's `comm_r` followed
    /// by its challenges as field elements.
    pub fn to_vec(&self) -> (columns: Vec<Vec<[u8; 32]>>)
        requires
            self.challenges@.len() == self.comms_r@.len(),
            forall|i: int| 0 <= i < self.comms_r@.len() ==> #[trigger] self.comms_r@[i] is Some,
            forall|i: int, j: int|
                0 <= i < self.challenges@.len() && 0 <= j < 10
                    ==> #[trigger] self.challenges@[i]@[j] is Some,
            self.comms_r@.len() * (1 + SECTOR_CHALLENGES) <= usize::MAX,
        ensures
            columns@.len() == 1,
            columns@[0]@.len() == self.comms_r@.len() * (1 + SECTOR_CHALLENGES),
            forall|i: int|
                0 <= i < self.comms_r@.len() ==> #[trigger] columns@[0]@[comm_r_row_of(
                    i as nat,
                ) as int] == self.comms_r@[i]->Some_0,
            forall|i: int, j: int|
                0 <= i < self.comms_r@.len() && 0 <= j < 10 ==> #[trigger] columns@[0]@[challenge_row_of(
                    i as nat,
                    j as nat,
                ) as int]@ == le_bytes(self.challenges@[i]@[j]->Some_0 as nat, 32),
    {
        let num_sectors = self.comms_r.len();
        let mut pub_inputs: Vec<[u8; 32]> = Vec::new();
        let mut i: usize = 0;
        while i < num_sectors
            invariant
                num_sectors == self.comms_r@.len(),
                self.challenges@.len() == num_sectors,
                forall|q: int| 0 <= q < num_sectors ==> #[trigger] self.comms_r@[q] is Some,
                forall|q: int, j: int|
                    0 <= q < num_sectors && 0 <= j < 10 ==> #[trigger] self.challenges@[q]@[j] is Some,
                i <= num_sectors,
                pub_inputs@.len() == i * (1 + SECTOR_CHALLENGES),
                forall|q: int|
                    0 <= q < i ==> #[trigger] pub_inputs@[comm_r_row_of(q as nat) as int]
                        == self.comms_r@[q]->Some_0,
                forall|q: int, j: int|
                    0 <= q < i && 0 <= j < 10 ==> #[trigger] pub_inputs@[challenge_row_of(
                        q as nat,
                        j as nat,
                    ) as int]@ == le_bytes(self.challenges@[q]@[j]->Some_0 as nat, 32),
            decreases num_sectors - i,
        {
            let ghost before = pub_inputs@;
            let comm_r = match self.comms_r[i] {
                Some(c) => c,
                None => [0u8; 32],
            };
            pub_inputs.push(comm_r);
            let row = self.challenges[i];
            let mut j: usize = 0;
            while j < 10
                invariant
                    j <= 10,
                    pub_inputs@.len() == before.len() + 1 + j,
                    pub_inputs@.take(before.len() as int) == before,
                    pub_inputs@[before.len() as int] == comm_r,
                    forall|q: int| 0 <= q < 10 ==> #[trigger] row@[q] is Some,
                    forall|q: int|
                        0 <= q < j ==> #[trigger] pub_inputs@[before.len() + 1 + q]@ == le_bytes(
                            row@[q]->Some_0 as nat,
                            32,
                        ),
                decreases 10 - j,
            {
                let c = match row[j] {
                    Some(c) => c,
                    None => 0,
                };
                let ghost prev = pub_inputs@;
                pub_inputs.push(field_repr_of_u64(c as u64));
                assert(pub_inputs@.take(before.len() as int) =~= prev.take(before.len() as int));
                j += 1;
            }
            proof {
                assert forall|q: int| 0 <= q < i + 1 implies #[trigger] pub_inputs@[comm_r_row_of(
                    q as nat,
                ) as int] == self.comms_r@[q]->Some_0 by {
                    if q < i {
                        assert(comm_r_row_of(q as nat) < before.len()) by (nonlinear_arith)
                            requires
                                q < i,
                                before.len() == i * 11,
                                comm_r_row_of(q as nat) == q * 11,
                        ;
                        assert(pub_inputs@[comm_r_row_of(q as nat) as int] == pub_inputs@.take(
                            before.len() as int,
                        )[comm_r_row_of(q as nat) as int]);
                    } else {
                        assert(comm_r_row_of(q as nat) == before.len());
                    }
                }
                assert forall|q: int, jj: int|
                    0 <= q < i + 1 && 0 <= jj < 10 implies #[trigger] pub_inputs@[challenge_row_of(
                    q as nat,
                    jj as nat,
                ) as int]@ == le_bytes(self.challenges@[q]@[jj]->Some_0 as nat, 32) by {
                    if q < i {
                        assert(challenge_row_of(q as nat, jj as nat) < before.len())
                            by (nonlinear_arith)
                            requires
                                q < i,
                                jj < 10,
                                before.len() == i * 11,
                                challenge_row_of(q as nat, jj as nat) == q * 11 + 1 + jj,
                        ;
                        assert(pub_inputs@[challenge_row_of(q as nat, jj as nat) as int]
                            == pub_inputs@.take(before.len() as int)[challenge_row_of(
                            q as nat,
                            jj as nat,
                        ) as int]);
                    } else {
                        assert(challenge_row_of(q as nat, jj as nat) == before.len() + 1 + jj);
                    }
                }
            }
            i += 1;
        }
        let mut columns: Vec<Vec<[u8; 32]>> = Vec::new();
        columns.push(pub_inputs);
        columns
    }
}

} // verus!
