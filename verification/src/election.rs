//! Election PoSt circuit components.
//!
//! A field element is held here by its canonical 32-byte little-endian representation;
//! `None` stands for a value the prover has not supplied.

use vstd::prelude::*;

verus! {

/// The number of values the partial-ticket preimage has before the challenged leaves:
/// the randomness, the prover id and the sector id.
pub const PARTIAL_TICKET_PREFIX: usize = 3;

/// `n` rounded up to the next multiple of `m`.
pub open spec fn round_up(n: nat, m: nat) -> nat
    recommends
        m > 0,
{
    if n % m == 0 {
        n
    } else {
        (n + (m - n % m)) as nat
    }
}

/// The length of the partial-ticket preimage over `leaf_count` leaves: the prefix and
/// the leaves, rounded up to the next multiple of the hash's arity.
pub open spec fn partial_ticket_len(leaf_count: nat, arity: nat) -> nat
    recommends
        arity > 0,
{
    round_up((PARTIAL_TICKET_PREFIX + leaf_count) as nat, arity)
}

/// `e` is the zero element: present, with every byte zero.
pub open spec fn is_zero_element(e: Option<[u8; 32]>) -> bool {
    &&& e is Some
    &&& forall|k: int| 0 <= k < 32 ==> #[trigger] e->Some_0@[k] == 0
}

/// `e` is element `j` of the partial-ticket preimage.
pub open spec fn partial_ticket_entry(
    randomness: Option<[u8; 32]>,
    prover_id: Option<[u8; 32]>,
    sector_id: Option<[u8; 32]>,
    leafs: Seq<Option<[u8; 32]>>,
    j: int,
    e: Option<[u8; 32]>,
) -> bool {
    if j == 0 {
        e == randomness
    } else if j == 1 {
        e == prover_id
    } else if j == 2 {
        e == sector_id
    } else if j < PARTIAL_TICKET_PREFIX + leafs.len() {
        e == leafs[j - PARTIAL_TICKET_PREFIX]
    } else {
        is_zero_element(e)
    }
}

/// The values whose multi-arity hash is the partial ticket: the randomness, the prover id,
/// the sector id, then each challenged leaf in order, then zero elements until the count
/// is a multiple of `arity`.
pub fn partial_ticket_preimage(
    randomness: Option<[u8; 32]>,
    prover_id: Option<[u8; 32]>,
    sector_id: Option<[u8; 32]>,
    leafs: &Vec<Option<[u8; 32]>>,
    arity: usize,
) -> (preimage: Vec<Option<[u8; 32]>>)
    requires
        arity > 0,
        PARTIAL_TICKET_PREFIX + leafs.len() + arity <= usize::MAX,
    ensures
        preimage.len() == partial_ticket_len(leafs.len() as nat, arity as nat),
        preimage.len() % arity == 0,
        PARTIAL_TICKET_PREFIX + leafs.len() <= preimage.len() < PARTIAL_TICKET_PREFIX + leafs.len()
            + arity,
        forall|j: int|
            0 <= j < preimage.len() ==> #[trigger] partial_ticket_entry(
                randomness,
                prover_id,
                sector_id,
                leafs@,
                j,
                preimage@[j],
            ),
{
    let mut preimage: Vec<Option<[u8; 32]>> = Vec::new();
    preimage.push(randomness);
    preimage.push(prover_id);
    preimage.push(sector_id);
    let mut i: usize = 0;
    while i < leafs.len()
        invariant
            i <= leafs.len(),
            preimage.len() == PARTIAL_TICKET_PREFIX + i,
            forall|j: int|
                0 <= j < preimage.len() ==> #[trigger] partial_ticket_entry(
                    randomness,
                    prover_id,
                    sector_id,
                    leafs@,
                    j,
                    preimage@[j],
                ),
        decreases leafs.len() - i,
    {
        preimage.push(leafs[i]);
        i = i + 1;
    }
    let full: usize = PARTIAL_TICKET_PREFIX + leafs.len();
    while preimage.len() % arity != 0
        invariant
            arity > 0,
            full == PARTIAL_TICKET_PREFIX + leafs.len(),
            full + arity <= usize::MAX,
            full <= preimage.len() <= round_up(full as nat, arity as nat),
            forall|j: int|
                0 <= j < preimage.len() ==> #[trigger] partial_ticket_entry(
                    randomness,
                    prover_id,
                    sector_id,
                    leafs@,
                    j,
                    preimage@[j],
                ),
        decreases round_up(full as nat, arity as nat) - preimage.len(),
    {
        proof {
            lemma_padding_step(full as nat, preimage.len() as nat, arity as nat);
        }
        let zero: [u8; 32] = [0u8; 32];
        assert(is_zero_element(Some(zero)));
        preimage.push(Some(zero));
    }
    proof {
        lemma_padding_done(full as nat, preimage.len() as nat, arity as nat);
    }
    preimage
}

/// Below the rounded-up length, a length that is not a multiple of the arity lies
/// strictly below it.
proof fn lemma_padding_step(full: nat, len: nat, arity: nat)
    requires
        arity > 0,
        full <= len <= round_up(full, arity),
        len % arity != 0,
    ensures
        len < round_up(full, arity),
        round_up(full, arity) < full + arity,
{
    lemma_round_up(full, arity);
}

/// The first multiple of the arity at or above `full` is the rounded-up length.
proof fn lemma_padding_done(full: nat, len: nat, arity: nat)
    requires
        arity > 0,
        full <= len <= round_up(full, arity),
        len % arity == 0,
    ensures
        len == round_up(full, arity),
        len < full + arity,
{
    lemma_round_up(full, arity);
}

/// `round_up` is the least multiple of the arity at or above the unpadded length.
proof fn lemma_round_up(full: nat, arity: nat)
    requires
        arity > 0,
    ensures
        ({
            let r = round_up(full, arity);
            &&& r % arity == 0
            &&& full <= r < full + arity
            &&& forall|m: nat| full <= m < r ==> #[trigger] (m % arity) != 0
        }),
{
    let r = round_up(full, arity);
    vstd::arithmetic::div_mod::lemma_fundamental_div_mod(full as int, arity as int);
    let q = full as int / arity as int;
    if full % arity == 0 {
        assert(r == full);
    } else {
        assert(r == arity * (q + 1)) by (nonlinear_arith)
            requires
                r == full + (arity - full % arity),
                full == arity * q + full % arity,
        ;
        vstd::arithmetic::div_mod::lemma_mod_multiples_basic(q + 1, arity as int);
        assert((arity * (q + 1)) % (arity as int) == 0) by {
            vstd::arithmetic::mul::lemma_mul_is_commutative(arity as int, q + 1);
        }
        assert forall|m: nat| full <= m < r implies #[trigger] (m % arity) != 0 by {
            let k = m - arity * q;
            assert(0 < k < arity) by (nonlinear_arith)
                requires
                    k == m - arity * q,
                    full <= m < r,
                    r == arity * (q + 1),
                    full == arity * q + full % arity,
                    0 < full % arity < arity,
            ;
            vstd::arithmetic::div_mod::lemma_fundamental_div_mod_converse(
                m as int,
                arity as int,
                q,
                k,
            );
        }
    }
}

/// The private inputs of the Election PoSt circuit component: there are none.
#[derive(Clone)]
pub struct ComponentPrivateInputs {}

impl Default for ComponentPrivateInputs {
    fn default() -> (inputs: Self)
        ensures
            inputs == (ComponentPrivateInputs {}),
    {
        ComponentPrivateInputs {}
    }
}

} // verus!
