//! The bit orders of the SHA-256 R1CS circuits.
//!
//! The circuits hold numbers as little-endian bit strings, while the SHA-256 gadget reads
//! and writes bytes most significant bit first. A preimage is padded with zero bits to
//! whole bytes and each group of eight bits is reversed; the digest's bits are reversed
//! byte by byte again and the low bits that fit the field are packed into a number.

use vstd::prelude::*;
use vstd::arithmetic::power2::*;
use vstd::arithmetic::div_mod::*;
use vstd::arithmetic::mul::*;
use crate::bits::{bit_of, bits_value, bytes_to_bits, bytes_value, lemma_bits_value_bit,
    lemma_bits_value_bound, lemma_bits_value_concat, lemma_bytes_to_bits_at,
    lemma_bytes_to_bits_value, lemma_nat_bits_of_value, nat_bits};
use crate::sha256::{digest_domain, lemma_trimmed_value, sha256, trimmed};

verus! {

/// The input position whose bit lands at output position `p` when every group of eight
/// bits is reversed.
pub open spec fn byte_reversed_index(p: int) -> int {
    (p / 8) * 8 + 7 - p % 8
}

/// The input position whose bit lands at output position `p` when `len` bits are cut
/// into chunks of eight (the last one possibly shorter) and each chunk is reversed.
pub open spec fn chunk_reversed_index(p: int, len: int) -> int {
    let c = p / 8;
    let m = if len - 8 * c < 8 {
        len - 8 * c
    } else {
        8
    };
    8 * c + m - 1 - p % 8
}

/// `len` rounded up to whole bytes, in bits.
pub open spec fn padded_len(len: nat) -> nat {
    ((len + 7) / 8 * 8) as nat
}

/// The bits that an order picks: `None` is a zero padding bit.
pub open spec fn apply_bit_order(order: Seq<Option<usize>>, bits: Seq<bool>) -> Seq<bool> {
    Seq::new(
        order.len(),
        |p: int|
            match order[p] {
                Some(k) => bits[k as int],
                None => false,
            },
    )
}

/// The bits that an order of positions picks.
pub open spec fn apply_index_order(order: Seq<usize>, bits: Seq<bool>) -> Seq<bool> {
    Seq::new(order.len(), |p: int| bits[order[p] as int])
}

/// The bits of a byte string, each byte most significant bit first.
pub open spec fn msb_first_bits(b: Seq<u8>) -> Seq<bool> {
    Seq::new(8 * b.len(), |p: int| bit_of(b[p / 8] as nat, (7 - p % 8) as nat))
}

/// The preimage order over `len` bits, as a sequence.
pub open spec fn preimage_order(len: nat) -> Seq<Option<usize>> {
    Seq::new(
        padded_len(len),
        |p: int|
            if byte_reversed_index(p) < len {
                Some(byte_reversed_index(p) as usize)
            } else {
                None
            },
    )
}

/// The digest order over `len` bits keeping the first `take`, as a sequence.
pub open spec fn digest_order(len: nat, take: nat) -> Seq<usize> {
    Seq::new(
        if take < len {
            take
        } else {
            len
        },
        |p: int| chunk_reversed_index(p, len as int) as usize,
    )
}

/// The order in which the circuits feed `len` little-endian bits to the SHA-256 gadget:
/// padded with zero bits to whole bytes, each byte's eight bits reversed.
pub fn le_bits_in_be_byte_order(len: usize) -> (order: Vec<Option<usize>>)
    requires
        len <= usize::MAX - 7,
    ensures
        order@ == preimage_order(len as nat),
        order@.len() == padded_len(len as nat),
        forall|p: int|
            0 <= p < order@.len() ==> #[trigger] order@[p] == if byte_reversed_index(p) < len {
                Some(byte_reversed_index(p) as usize)
            } else {
                None
            },
{
    let padded = (len + 7) / 8 * 8;
    let mut order: Vec<Option<usize>> = Vec::new();
    let mut p: usize = 0;
    while p < padded
        invariant
            padded == padded_len(len as nat),
            p <= padded,
            order@.len() == p,
            forall|q: int|
                0 <= q < p ==> #[trigger] order@[q] == if byte_reversed_index(q) < len {
                    Some(byte_reversed_index(q) as usize)
                } else {
                    None
                },
        decreases padded - p,
    {
        let k = p / 8 * 8 + 7 - p % 8;
        if k < len {
            order.push(Some(k));
        } else {
            order.push(None);
        }
        p += 1;
    }
    assert(order@ =~= preimage_order(len as nat));
    order
}

/// The order in which the circuits read the digest's first `take` bits back as
/// little-endian bits: the `len` bits cut into chunks of eight (the last one possibly
/// shorter), each chunk reversed.
pub fn be_bits_in_le_byte_order(len: usize, take: usize) -> (order: Vec<usize>)
    ensures
        order@ == digest_order(len as nat, take as nat),
        order@.len() == if take < len { take } else { len },
        forall|p: int|
            0 <= p < order@.len() ==> #[trigger] order@[p] == chunk_reversed_index(p, len as int),
{
    let n = if take < len { take } else { len };
    let mut order: Vec<usize> = Vec::new();
    let mut p: usize = 0;
    while p < n
        invariant
            n <= len,
            p <= n,
            order@.len() == p,
            forall|q: int| 0 <= q < p ==> #[trigger] order@[q] == chunk_reversed_index(q, len as int),
        decreases n - p,
    {
        let c = p / 8;
        let rest = len - 8 * c;
        let m = if rest < 8 { rest } else { 8 };
        order.push(8 * c + m - 1 - p % 8);
        p += 1;
    }
    assert(order@ =~= digest_order(len as nat, take as nat));
    order
}

/// Fed through the preimage order, the little-endian bits `x` of a number become the
/// bytes of its little-endian byte representation `b`, each byte most significant bit
/// first: the circuit hashes the same bytes as the hasher does.
#[verifier::spinoff_prover]
#[verifier::rlimit(40)]
pub proof fn lemma_preimage_order_bytes(x: Seq<bool>, b: Seq<u8>, order: Seq<Option<usize>>)
    requires
        x.len() <= usize::MAX,
        8 * b.len() == padded_len(x.len()),
        bytes_value(b) == bits_value(x),
        order.len() == padded_len(x.len()),
        forall|p: int|
            0 <= p < order.len() ==> #[trigger] order[p] == if byte_reversed_index(p) < x.len() {
                Some(byte_reversed_index(p) as usize)
            } else {
                None
            },
    ensures
        apply_bit_order(order, x) == msb_first_bits(b),
{
    lemma_bytes_to_bits_value(b);
    lemma_bytes_to_bits_at(b);
    lemma_nat_bits_of_value(bytes_to_bits(b));
    assert forall|p: int| 0 <= p < order.len() implies #[trigger] apply_bit_order(order, x)[p]
        == msb_first_bits(b)[p] by {
        let k = byte_reversed_index(p);
        assert(k / 8 == p / 8 && k % 8 == 7 - p % 8 && 0 <= k < order.len());
        lemma_bits_value_bit(x, k as nat);
        assert(bytes_to_bits(b)[k] == nat_bits(bits_value(x), 8 * b.len())[k]);
        assert(bytes_to_bits(b)[k] == bit_of(b[k / 8] as nat, (k % 8) as nat));
        assert(bytes_to_bits(b)[k] == (k < x.len() && x[k]));
        if k < x.len() {
            assert(order[p] == Some(k as usize));
            assert(apply_bit_order(order, x)[p] == x[k]);
        } else {
            assert(order[p] == None::<usize>);
            assert(apply_bit_order(order, x)[p] == false);
        }
    }
    assert(apply_bit_order(order, x) =~= msb_first_bits(b));
}

/// Read back through the digest order, the first `n` most-significant-first bits of a
/// digest are its first `n` little-endian bits.
pub proof fn lemma_digest_order_bits(d: Seq<u8>, order: Seq<usize>)
    requires
        order.len() <= 8 * d.len(),
        forall|p: int|
            0 <= p < order.len() ==> #[trigger] order[p] == chunk_reversed_index(p, 8 * d.len() as int),
    ensures
        apply_index_order(order, msb_first_bits(d)) == bytes_to_bits(d).take(order.len() as int),
{
    lemma_bytes_to_bits_at(d);
    assert forall|p: int| 0 <= p < order.len() implies #[trigger] apply_index_order(
        order,
        msb_first_bits(d),
    )[p] == bytes_to_bits(d).take(order.len() as int)[p] by {
        let k = byte_reversed_index(p);
        assert(chunk_reversed_index(p, 8 * d.len() as int) == k);
        assert(k / 8 == p / 8 && k % 8 == 7 - p % 8);
        assert(0 <= k < 8 * d.len());
        assert(bytes_to_bits(d)[p] == bit_of(d[p / 8] as nat, (p % 8) as nat));
        assert(msb_first_bits(d)[k] == bit_of(d[k / 8] as nat, (7 - k % 8) as nat));
        assert(order[p] as int == k);
        assert(apply_index_order(order, msb_first_bits(d))[p] == msb_first_bits(d)[k]);
    }
    assert(apply_index_order(order, msb_first_bits(d)) =~= bytes_to_bits(d).take(
        order.len() as int,
    ));
}

/// The value of the first `n` bits is the value modulo `2^n`.
pub proof fn lemma_bits_value_take(s: Seq<bool>, n: int)
    requires
        0 <= n <= s.len(),
    ensures
        bits_value(s.take(n)) == bits_value(s) % pow2(n as nat),
{
    assert(s =~= s.take(n) + s.skip(n));
    lemma_bits_value_concat(s.take(n), s.skip(n));
    lemma_bits_value_bound(s.take(n));
    lemma_pow2_pos(n as nat);
    lemma_mod_multiples_vanish(
        bits_value(s.skip(n)) as int,
        bits_value(s.take(n)) as int,
        pow2(n as nat) as int,
    );
    lemma_small_mod(bits_value(s.take(n)), pow2(n as nat));
}

/// The number that the circuits pack from the first 254 little-endian bits of a digest is
/// the value of the trimmed digest, the hasher's domain element.
pub proof fn lemma_packed_digest_is_trimmed(d: Seq<u8>)
    requires
        d.len() == 32,
    ensures
        bits_value(bytes_to_bits(d).take(254)) == bytes_value(trimmed(d)),
{
    lemma_bytes_to_bits_value(d);
    lemma_bits_value_take(bytes_to_bits(d), 254);
    lemma_trimmed_value(d);
}

/// The bytes of several byte strings, one after another.
pub open spec fn concat_bytes(parts: Seq<Seq<u8>>) -> Seq<u8>
    decreases parts.len(),
{
    if parts.len() == 0 {
        Seq::empty()
    } else {
        concat_bytes(parts.drop_last()) + parts.last()
    }
}

/// The bits that the circuits feed to the SHA-256 gadget for leaves given as little-endian
/// bits: each leaf's bits through the preimage order, one leaf after another.
pub open spec fn circuit_preimage(leaves: Seq<Seq<bool>>) -> Seq<bool>
    decreases leaves.len(),
{
    if leaves.len() == 0 {
        Seq::empty()
    } else {
        circuit_preimage(leaves.drop_last()) + apply_bit_order(
            preimage_order(leaves.last().len()),
            leaves.last(),
        )
    }
}

/// The number that the circuits pack from the gadget's output bits: the first `capacity`
/// of them, read back through the digest order, as a little-endian number.
pub open spec fn circuit_packed(gadget_out: Seq<bool>, capacity: nat) -> nat {
    bits_value(apply_index_order(digest_order(gadget_out.len(), capacity), gadget_out))
}

/// `gadget` computes SHA-256: fed the bits of a byte string, each byte most significant
/// bit first, it gives the digest's bits in the same order.
pub open spec fn computes_sha256(gadget: spec_fn(Seq<bool>) -> Seq<bool>) -> bool {
    forall|m: Seq<u8>| #[trigger] gadget(msb_first_bits(m)) == msb_first_bits(sha256(m))
}

/// `x` are the little-endian bits of the byte string `b`, which is `x` padded with zero
/// bits to whole bytes: bit `8j + t` of `x` is bit `t` of byte `j`.
pub open spec fn le_bits_of_bytes(x: Seq<bool>, b: Seq<u8>) -> bool {
    &&& x.len() <= usize::MAX
    &&& 8 * b.len() == padded_len(x.len())
    &&& bytes_value(b) == bits_value(x)
}

/// The most-significant-first bits of two byte strings one after another are the bits of
/// the first followed by the bits of the second.
proof fn lemma_msb_first_bits_concat(a: Seq<u8>, b: Seq<u8>)
    ensures
        msb_first_bits(a + b) == msb_first_bits(a) + msb_first_bits(b),
{
    assert forall|p: int| 0 <= p < 8 * (a.len() + b.len()) implies #[trigger] msb_first_bits(
        a + b,
    )[p] == (msb_first_bits(a) + msb_first_bits(b))[p] by {
        if p >= 8 * a.len() {
            let q = p - 8 * a.len();
            assert(q / 8 == p / 8 - a.len() && q % 8 == p % 8) by (nonlinear_arith)
                requires
                    q == p - 8 * a.len(),
                    q >= 0,
            ;
        } else {
            assert(p / 8 < a.len()) by (nonlinear_arith)
                requires
                    0 <= p < 8 * a.len(),
            ;
        }
    }
    assert(msb_first_bits(a + b) =~= msb_first_bits(a) + msb_first_bits(b));
}

/// The bits that the circuits feed to the gadget for leaves are the most-significant-first
/// bits of the leaves' byte strings, one after another.
proof fn lemma_circuit_preimage_bytes(leaves: Seq<Seq<bool>>, parts: Seq<Seq<u8>>)
    requires
        leaves.len() == parts.len(),
        forall|j: int| 0 <= j < leaves.len() ==> #[trigger] le_bits_of_bytes(leaves[j], parts[j]),
    ensures
        circuit_preimage(leaves) == msb_first_bits(concat_bytes(parts)),
    decreases leaves.len(),
{
    if leaves.len() == 0 {
        assert(msb_first_bits(Seq::<u8>::empty()) =~= Seq::<bool>::empty());
    } else {
        let n = leaves.len() - 1;
        assert forall|j: int| 0 <= j < n implies #[trigger] le_bits_of_bytes(
            leaves.drop_last()[j],
            parts.drop_last()[j],
        ) by {
            assert(le_bits_of_bytes(leaves[j], parts[j]));
        }
        lemma_circuit_preimage_bytes(leaves.drop_last(), parts.drop_last());
        let x = leaves.last();
        let b = parts.last();
        assert(le_bits_of_bytes(leaves[n], parts[n]));
        lemma_preimage_order_bytes(x, b, preimage_order(x.len()));
        lemma_msb_first_bits_concat(concat_bytes(parts.drop_last()), b);
    }
}

/// Whatever a 256-bit digest `d` is, the number packed from its most-significant-first
/// bits with the field capacity of 254 bits is the trimmed digest's value.
proof fn lemma_circuit_packed_digest(d: Seq<u8>)
    requires
        d.len() == 32,
    ensures
        circuit_packed(msb_first_bits(d), 254) == bytes_value(trimmed(d)),
{
    let order = digest_order(256, 254);
    assert forall|p: int| 0 <= p < order.len() implies #[trigger] order[p] == chunk_reversed_index(
        p,
        8 * d.len() as int,
    ) by {
        let c = p / 8;
        assert(0 <= c <= 31 && 256 - 8 * c >= 8 && 0 <= p % 8 < 8 && p == 8 * c + p % 8);
        assert(0 <= chunk_reversed_index(p, 256) < 256);
    }
    lemma_digest_order_bits(d, order);
    lemma_packed_digest_is_trimmed(d);
}

/// The circuit `hash_multi_leaf_circuit` gives the hasher's digest: for leaves whose
/// little-endian bits are those of the byte strings `reprs`, if the gadget computes SHA-256
/// then the number the circuit packs (with the 254-bit capacity of `Fr`, `Fp` and `Fq`) is
/// the trimmed SHA-256 digest of the byte strings one after another.
pub proof fn lemma_hash_multi_leaf_circuit(
    leaves: Seq<Seq<bool>>,
    reprs: Seq<Seq<u8>>,
    gadget: spec_fn(Seq<bool>) -> Seq<bool>,
)
    requires
        leaves.len() == reprs.len(),
        forall|j: int| 0 <= j < leaves.len() ==> #[trigger] le_bits_of_bytes(leaves[j], reprs[j]),
        computes_sha256(gadget),
        sha256(concat_bytes(reprs)).len() == 32,
    ensures
        circuit_packed(gadget(circuit_preimage(leaves)), 254) == bytes_value(
            digest_domain(concat_bytes(reprs)),
        ),
{
    lemma_circuit_preimage_bytes(leaves, reprs);
    let m = concat_bytes(reprs);
    assert(gadget(msb_first_bits(m)) == msb_first_bits(sha256(m)));
    lemma_circuit_packed_digest(sha256(m));
}

/// `concat_bytes` of two byte strings is the two one after another.
proof fn lemma_concat_two(a: Seq<u8>, b: Seq<u8>)
    ensures
        concat_bytes(seq![a, b]) == a + b,
{
    assert(seq![a, b].drop_last() =~= seq![a]);
    assert(seq![a].drop_last() =~= Seq::<Seq<u8>>::empty());
    assert(seq![a].last() == a && seq![a, b].last() == b);
    assert(concat_bytes(Seq::<Seq<u8>>::empty()) == Seq::<u8>::empty());
    assert(concat_bytes(seq![a]) =~= a);
    assert(concat_bytes(seq![a, b]) =~= a + b);
}

/// The circuit `hash2_circuit` gives the hasher's `hash2`: for numbers whose little-endian
/// bits are those of the elements `a` and `b`, if the gadget computes SHA-256 then the
/// number the circuit packs is the value of the trimmed digest of `a` followed by `b`.
pub proof fn lemma_hash2_circuit(
    a_bits: Seq<bool>,
    b_bits: Seq<bool>,
    a: Seq<u8>,
    b: Seq<u8>,
    gadget: spec_fn(Seq<bool>) -> Seq<bool>,
)
    requires
        le_bits_of_bytes(a_bits, a),
        le_bits_of_bytes(b_bits, b),
        a.len() == 32,
        b.len() == 32,
        computes_sha256(gadget),
        sha256(a + b).len() == 32,
    ensures
        circuit_packed(gadget(circuit_preimage(seq![a_bits, b_bits])), 254) == bytes_value(
            digest_domain(a + b),
        ),
{
    lemma_hash_leaf_bits_circuit(a_bits, b_bits, a, b, gadget);
}

/// The circuit `hash_leaf_bits_circuit` gives the hasher's digest: for bit strings `left`
/// and `right`, each padded with zero bits to the byte strings `lb` and `rb`, if the gadget
/// computes SHA-256 then the number the circuit packs is the value of the trimmed digest of
/// `lb` followed by `rb`, whatever the height.
pub proof fn lemma_hash_leaf_bits_circuit(
    left: Seq<bool>,
    right: Seq<bool>,
    lb: Seq<u8>,
    rb: Seq<u8>,
    gadget: spec_fn(Seq<bool>) -> Seq<bool>,
)
    requires
        le_bits_of_bytes(left, lb),
        le_bits_of_bytes(right, rb),
        computes_sha256(gadget),
        sha256(lb + rb).len() == 32,
    ensures
        circuit_packed(gadget(circuit_preimage(seq![left, right])), 254) == bytes_value(
            digest_domain(lb + rb),
        ),
{
    lemma_concat_two(lb, rb);
    let leaves = seq![left, right];
    let parts = seq![lb, rb];
    assert(le_bits_of_bytes(leaves[0], parts[0]));
    assert(le_bits_of_bytes(leaves[1], parts[1]));
    lemma_hash_multi_leaf_circuit(leaves, parts, gadget);
}

} // verus!
