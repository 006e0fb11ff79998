//! Splitting a field element's 32-byte little-endian representation into `u32` limbs and
//! limbs into bits, packing limbs back, and stripping a `u32` to its low 30 bits.

use vstd::prelude::*;
use vstd::arithmetic::power2::*;
use vstd::arithmetic::div_mod::*;
use vstd::arithmetic::mul::*;
use crate::bits::{bits_value, bytes_to_bits, bytes_value, nat_bits, i2lebsp,
    lemma_bits_value_bit, lemma_bits_value_bound, lemma_bits_value_concat,
    lemma_bytes_to_bits_value, lemma_bytes_value_bound, lemma_bytes_value_concat,
    lemma_bytes_value_injective, lemma_nat_bits_of_value, lemma_value_of_nat_bits, le_bytes,
    lemma_bytes_to_bits_concat};

verus! {

/// The number of advice columns the `u32` decomposition chips use.
pub const NUM_ADVICE_EQ: usize = 9;

/// The value of `u32` limbs, least significant limb first.
pub open spec fn limbs_value(l: Seq<u32>) -> nat
    decreases l.len(),
{
    if l.len() == 0 {
        0
    } else {
        limbs_value(l.drop_last()) + (l.last() as nat) * pow2((32 * (l.len() - 1)) as nat)
    }
}

/// The four bytes of limb `i` of a byte string.
pub open spec fn limb_bytes(repr: Seq<u8>, i: int) -> Seq<u8> {
    repr.subrange(4 * i, 4 * i + 4)
}

/// The value of four bytes.
proof fn lemma_bytes_value_4(b: Seq<u8>)
    requires
        b.len() == 4,
    ensures
        bytes_value(b) == b[0] + b[1] * 0x100 + b[2] * 0x10000 + b[3] * 0x1000000,
{
    lemma2_to64();
    let b3 = b.drop_last();
    let b2 = b3.drop_last();
    let b1 = b2.drop_last();
    let b0 = b1.drop_last();
    assert(b0 =~= Seq::<u8>::empty());
    assert(bytes_value(b0) == 0);
    assert(b1.last() == b[0] && b2.last() == b[1] && b3.last() == b[2] && b.last() == b[3]);
    assert(b1.len() == 1 && b2.len() == 2 && b3.len() == 3);
    assert(bytes_value(b1) == bytes_value(b0) + (b1.last() as nat) * pow2(0));
    assert(bytes_value(b1) == b[0]);
    assert(bytes_value(b2) == b[0] + b[1] * 0x100);
    assert(bytes_value(b3) == b[0] + b[1] * 0x100 + b[2] * 0x10000);
}

/// The four little-endian bytes of a number below `2^32`.
proof fn lemma_le_bytes_4(v: nat)
    requires
        v < 0x1_0000_0000,
    ensures
        le_bytes(v, 4).len() == 4,
        le_bytes(v, 4)[0] == v % 0x100,
        le_bytes(v, 4)[1] == (v / 0x100) % 0x100,
        le_bytes(v, 4)[2] == (v / 0x10000) % 0x100,
        le_bytes(v, 4)[3] == (v / 0x1000000) % 0x100,
{
    lemma2_to64();
    let w = le_bytes(v, 4);
    assert(pow2((8 * 0) as nat) == 1);
    assert(pow2((8 * 1) as nat) == 0x100);
    assert(pow2((8 * 2) as nat) == 0x10000);
    assert(pow2((8 * 3) as nat) == 0x1000000);
    assert(w[0] == ((v / pow2((8 * 0) as nat)) % 256) as u8);
    assert(w[1] == ((v / pow2((8 * 1) as nat)) % 256) as u8);
    assert(w[2] == ((v / pow2((8 * 2) as nat)) % 256) as u8);
    assert(w[3] == ((v / pow2((8 * 3) as nat)) % 256) as u8);
}

/// Reads a `u32` from four little-endian bytes.
pub fn u32_from_le_bytes(b: &[u8]) -> (v: u32)
    requires
        b@.len() == 4,
    ensures
        v == bytes_value(b@),
{
    proof {
        lemma_bytes_value_4(b@);
    }
    (b[0] as u32) + (b[1] as u32) * 0x100 + (b[2] as u32) * 0x10000 + (b[3] as u32) * 0x1000000
}

/// Writes a `u32` as four little-endian bytes.
pub fn u32_to_le_bytes(v: u32) -> (b: Vec<u8>)
    ensures
        b@ == le_bytes(v as nat, 4),
        bytes_value(b@) == v,
{
    let b0 = (v % 0x100) as u8;
    let b1 = ((v / 0x100) % 0x100) as u8;
    let b2 = ((v / 0x10000) % 0x100) as u8;
    let b3 = (v / 0x1000000) as u8;
    let mut b: Vec<u8> = Vec::new();
    b.push(b0);
    b.push(b1);
    b.push(b2);
    b.push(b3);
    proof {
        lemma_bytes_value_4(b@);
        assert(v == b0 + b1 * 0x100 + b2 * 0x10000 + b3 * 0x1000000) by (nonlinear_arith)
            requires
                b0 == v % 0x100,
                b1 == (v / 0x100) % 0x100,
                b2 == (v / 0x10000) % 0x100,
                b3 == v / 0x1000000,
                v < 0x1_0000_0000,
        ;
        lemma_le_bytes_4(v as nat);
        assert(b@ =~= le_bytes(v as nat, 4));
    }
    b
}

/// The little-endian bits of each byte of `bytes`, in byte order: bit `i` of byte `k`
/// is `(bytes[k] >> i) & 1`.
pub fn bytes_le_bits(bytes: &[u8]) -> (bits: Vec<bool>)
    ensures
        bits@ == bytes_to_bits(bytes@),
{
    let mut bits: Vec<bool> = Vec::new();
    let mut k: usize = 0;
    while k < bytes.len()
        invariant
            k <= bytes@.len(),
            bits@ == bytes_to_bits(bytes@.take(k as int)),
        decreases bytes@.len() - k,
    {
        let byte_bits = i2lebsp(bytes[k] as u64, 8);
        let mut i: usize = 0;
        let ghost before = bits@;
        while i < 8
            invariant
                i <= 8,
                byte_bits@.len() == 8,
                bits@ == before + byte_bits@.take(i as int),
            decreases 8 - i,
        {
            bits.push(byte_bits[i]);
            i += 1;
            assert(bits@ =~= before + byte_bits@.take(i as int));
        }
        assert(bytes@.take(k + 1).drop_last() =~= bytes@.take(k as int));
        assert(byte_bits@.take(8) =~= byte_bits@);
        k += 1;
    }
    assert(bytes@.take(bytes@.len() as int) =~= bytes@);
    bits
}

/// The bits of four bytes are the 32 bits of the `u32` they denote.
pub proof fn lemma_bytes_bits_are_u32_bits(b: Seq<u8>)
    requires
        b.len() == 4,
    ensures
        bytes_value(b) <= u32::MAX,
        bytes_to_bits(b) == nat_bits(bytes_value(b), 32),
{
    lemma_bytes_to_bits_value(b);
    lemma_bytes_value_bound(b);
    lemma2_to64();
    lemma_nat_bits_of_value(bytes_to_bits(b));
}

/// The 32 little-endian bits of `value`, as the 32-bit gates lay them out: eight bits per
/// row, least significant first.
pub fn u32_le_bits(value: u32) -> (bits: Vec<bool>)
    ensures
        bits@ == nat_bits(value as nat, 32),
        bits_value(bits@) == value,
{
    let bits = i2lebsp(value as u64, 32);
    proof {
        lemma_value_of_nat_bits(value as nat, 32);
        lemma2_to64();
        lemma_small_mod(value as nat, pow2(32));
    }
    bits
}

/// The eight `u32` limbs of a 32-byte little-endian representation: limb `i` is read from
/// bytes `4i..4i+4`.
pub fn repr_to_u32s(repr: &[u8; 32]) -> (limbs: Vec<u32>)
    ensures
        limbs@.len() == 8,
        forall|i: int| 0 <= i < 8 ==> #[trigger] limbs@[i] == bytes_value(limb_bytes(repr@, i)),
        limbs_value(limbs@) == bytes_value(repr@),
{
    let mut limbs: Vec<u32> = Vec::new();
    let mut i: usize = 0;
    while i < 8
        invariant
            i <= 8,
            repr@.len() == 32,
            limbs@.len() == i,
            forall|j: int| 0 <= j < i ==> #[trigger] limbs@[j] == bytes_value(limb_bytes(repr@, j)),
            limbs_value(limbs@) == bytes_value(repr@.take(4 * i)),
        decreases 8 - i,
    {
        let mut four: Vec<u8> = Vec::new();
        four.push(repr[4 * i]);
        four.push(repr[4 * i + 1]);
        four.push(repr[4 * i + 2]);
        four.push(repr[4 * i + 3]);
        assert(four@ =~= limb_bytes(repr@, i as int));
        let limb = u32_from_le_bytes(&four);
        let ghost prev = limbs@;
        limbs.push(limb);
        proof {
            assert(limbs@.drop_last() =~= prev);
            assert(repr@.take(4 * (i + 1)) =~= repr@.take(4 * i) + four@);
            lemma_bytes_value_concat(repr@.take(4 * i), four@);
            lemma_mul_is_commutative(limb as int, pow2(32 * i as nat) as int);
        }
        i += 1;
    }
    assert(repr@.take(32) =~= repr@);
    limbs
}

/// Writes eight `u32` limbs as a 32-byte little-endian representation.
pub fn u32s_to_repr(limbs: &[u32]) -> (repr: [u8; 32])
    requires
        limbs@.len() == 8,
    ensures
        forall|i: int| 0 <= i < 8 ==> bytes_value(#[trigger] limb_bytes(repr@, i)) == limbs@[i],
        bytes_value(repr@) == limbs_value(limbs@),
{
    let mut repr = [0u8; 32];
    let mut i: usize = 0;
    while i < 8
        invariant
            i <= 8,
            limbs@.len() == 8,
            forall|j: int| 0 <= j < i ==> bytes_value(#[trigger] limb_bytes(repr@, j)) == limbs@[j],
            bytes_value(repr@.take(4 * i)) == limbs_value(limbs@.take(i as int)),
        decreases 8 - i,
    {
        let bytes = u32_to_le_bytes(limbs[i]);
        let ghost prev = repr@;
        repr[4 * i] = bytes[0];
        repr[4 * i + 1] = bytes[1];
        repr[4 * i + 2] = bytes[2];
        repr[4 * i + 3] = bytes[3];
        proof {
            assert(limb_bytes(repr@, i as int) =~= bytes@);
            assert forall|j: int| 0 <= j < i + 1 implies bytes_value(#[trigger] limb_bytes(repr@, j))
                == limbs@[j] by {
                if j < i {
                    assert(limb_bytes(repr@, j) =~= limb_bytes(prev, j));
                }
            }
            assert(repr@.take(4 * i) =~= prev.take(4 * i));
            assert(repr@.take(4 * (i + 1)) =~= repr@.take(4 * i) + bytes@);
            lemma_bytes_value_concat(repr@.take(4 * i), bytes@);
            assert(limbs@.take(i + 1).drop_last() =~= limbs@.take(i as int));
            lemma_mul_is_commutative(limbs@[i as int] as int, pow2(32 * i as nat) as int);
        }
        i += 1;
    }
    assert(repr@.take(32) =~= repr@);
    assert(limbs@.take(8) =~= limbs@);
    repr
}

/// The little-endian bytes of `u32` limbs, least significant limb first.
pub open spec fn limbs_to_bytes(l: Seq<u32>) -> Seq<u8>
    decreases l.len(),
{
    if l.len() == 0 {
        Seq::empty()
    } else {
        limbs_to_bytes(l.drop_last()) + le_bytes(l.last() as nat, 4)
    }
}

/// The bits of `u32` limbs as the binary decomposition lays them out: for each limb, its
/// four little-endian bytes, each byte's bits least significant first.
pub fn u32s_le_bits(limbs: &[u32]) -> (bits: Vec<bool>)
    ensures
        bits@ == bytes_to_bits(limbs_to_bytes(limbs@)),
{
    let mut bits: Vec<bool> = Vec::new();
    let mut i: usize = 0;
    while i < limbs.len()
        invariant
            i <= limbs@.len(),
            bits@ == bytes_to_bits(limbs_to_bytes(limbs@.take(i as int))),
        decreases limbs@.len() - i,
    {
        let bytes = u32_to_le_bytes(limbs[i]);
        let limb_bits = bytes_le_bits(&bytes);
        let mut j: usize = 0;
        let ghost before = bits@;
        while j < limb_bits.len()
            invariant
                j <= limb_bits@.len(),
                bits@ == before + limb_bits@.take(j as int),
            decreases limb_bits@.len() - j,
        {
            bits.push(limb_bits[j]);
            j += 1;
            assert(bits@ =~= before + limb_bits@.take(j as int));
        }
        proof {
            assert(limb_bits@.take(limb_bits@.len() as int) =~= limb_bits@);
            assert(limbs@.take(i + 1).drop_last() =~= limbs@.take(i as int));
            lemma_bytes_to_bits_concat(limbs_to_bytes(limbs@.take(i as int)), bytes@);
        }
        i += 1;
    }
    assert(limbs@.take(limbs@.len() as int) =~= limbs@);
    bits
}

/// The bytes of limbs read from a 32-byte representation are the representation, so
/// the bits that the binary decomposition assigns are the representation's bits.
pub proof fn lemma_limb_bytes_are_repr(repr: Seq<u8>, limbs: Seq<u32>)
    requires
        repr.len() == 32,
        limbs.len() == 8,
        forall|i: int| 0 <= i < 8 ==> #[trigger] limbs[i] == bytes_value(limb_bytes(repr, i)),
    ensures
        limbs_to_bytes(limbs) == repr,
        bytes_to_bits(limbs_to_bytes(limbs)) == bytes_to_bits(repr),
{
    lemma_limbs_to_bytes_prefix(repr, limbs, 8);
    assert(limbs.take(8) =~= limbs);
    assert(repr.take(32) =~= repr);
}

/// The bytes of the first `n` limbs are the first `4n` bytes of the representation.
proof fn lemma_limbs_to_bytes_prefix(repr: Seq<u8>, limbs: Seq<u32>, n: int)
    requires
        repr.len() == 32,
        limbs.len() == 8,
        0 <= n <= 8,
        forall|i: int| 0 <= i < 8 ==> #[trigger] limbs[i] == bytes_value(limb_bytes(repr, i)),
    ensures
        limbs_to_bytes(limbs.take(n)) == repr.take(4 * n),
    decreases n,
{
    if n == 0 {
        assert(limbs_to_bytes(limbs.take(0)) =~= repr.take(0));
    } else {
        lemma_limbs_to_bytes_prefix(repr, limbs, n - 1);
        assert(limbs.take(n).drop_last() =~= limbs.take(n - 1));
        let x = limb_bytes(repr, n - 1);
        assert(limbs[n - 1] == bytes_value(x));
        lemma_le_bytes_of_value(x);
        assert(repr.take(4 * n) =~= repr.take(4 * (n - 1)) + x);
    }
}

/// Four bytes are the four little-endian bytes of the number they denote.
proof fn lemma_le_bytes_of_value(x: Seq<u8>)
    requires
        x.len() == 4,
    ensures
        le_bytes(bytes_value(x), 4) == x,
{
    let v = bytes_value(x);
    lemma_bytes_value_bound(x);
    lemma2_to64();
    assert(v < 0x1_0000_0000);
    let w = le_bytes(v, 4);
    lemma_le_bytes_4(v);
    lemma_bytes_value_4(x);
    lemma_bytes_value_4(w);
    assert(bytes_value(w) == v) by (nonlinear_arith)
        requires
            bytes_value(w) == w[0] + w[1] * 0x100 + w[2] * 0x10000 + w[3] * 0x1000000,
            w[0] == v % 0x100,
            w[1] == (v / 0x100) % 0x100,
            w[2] == (v / 0x10000) % 0x100,
            w[3] == (v / 0x1000000) % 0x100,
            v < 0x1_0000_0000,
    ;
    lemma_bytes_value_injective(w, x);
}

/// Packing the limbs of a representation gives the representation back.
pub proof fn lemma_pack_repr_to_u32s(repr: Seq<u8>, limbs: Seq<u32>, packed: Seq<u8>)
    requires
        repr.len() == 32,
        packed.len() == 32,
        limbs.len() == 8,
        forall|i: int| 0 <= i < 8 ==> #[trigger] limbs[i] == bytes_value(limb_bytes(repr, i)),
        forall|i: int| 0 <= i < 8 ==> bytes_value(#[trigger] limb_bytes(packed, i)) == limbs[i],
    ensures
        packed == repr,
{
    assert forall|i: int| 0 <= i < 8 implies #[trigger] limb_bytes(packed, i) == limb_bytes(repr, i)
        by {
        assert(limbs[i] == bytes_value(limb_bytes(repr, i)));
        lemma_bytes_value_injective(limb_bytes(packed, i), limb_bytes(repr, i));
    }
    assert forall|k: int| 0 <= k < 32 implies packed[k] == repr[k] by {
        let i = k / 4;
        assert(limb_bytes(packed, i)[k - 4 * i] == limb_bytes(repr, i)[k - 4 * i]);
    }
    assert(packed =~= repr);
}

/// Splitting packed limbs gives the limbs back.
pub proof fn lemma_repr_to_u32s_pack(limbs: Seq<u32>, packed: Seq<u8>, split: Seq<u32>)
    requires
        limbs.len() == 8,
        split.len() == 8,
        packed.len() == 32,
        forall|i: int| 0 <= i < 8 ==> bytes_value(#[trigger] limb_bytes(packed, i)) == limbs[i],
        forall|i: int| 0 <= i < 8 ==> #[trigger] split[i] == bytes_value(limb_bytes(packed, i)),
    ensures
        split == limbs,
{
    assert forall|i: int| 0 <= i < 8 implies split[i] == limbs[i] by {
        assert(bytes_value(limb_bytes(packed, i)) == limbs[i]);
    }
    assert(split =~= limbs);
}

/// Clears the two most significant bits of a `u32`.
pub fn strip_bits(value: u32) -> (stripped: u32)
    ensures
        stripped == value % 0x4000_0000,
        nat_bits(stripped as nat, 32) == nat_bits(value as nat, 30) + seq![false, false],
{
    // mask = 0b00111111_11111111_11111111_11111111 = 2^30 - 1
    let mask: u32 = 0x3fff_ffff;
    let stripped = value & mask;
    assert(stripped == value % 0x4000_0000) by (bit_vector)
        requires
            mask == 0x3fff_ffffu32,
            stripped == value & mask,
    ;
    proof {
        lemma2_to64();
        lemma_strip_bits_gate(value);
        let u = nat_bits(value as nat, 32);
        lemma_bits_value_bound(u.take(30));
        assert forall|i: int| 0 <= i < 32 implies #[trigger] nat_bits(stripped as nat, 32)[i] == (
        nat_bits(value as nat, 30) + seq![false, false])[i] by {
            lemma_bits_value_bit(u.take(30), i as nat);
        }
        assert(nat_bits(stripped as nat, 32) =~= nat_bits(value as nat, 30) + seq![false, false]);
    }
    stripped
}

/// Stripping the `u32` read from four bytes clears the two top bits of the fourth byte:
/// `strip(u32(b0, b1, b2, b3)) == u32(b0, b1, b2, b3 & 0b0011_1111)`.
pub proof fn lemma_strip_clears_top_byte_bits(b: Seq<u8>)
    requires
        b.len() == 4,
    ensures
        bytes_value(b.update(3, b[3] & 0x3f)) == bytes_value(b) % 0x4000_0000,
{
    let c = b.update(3, b[3] & 0x3f);
    lemma_bytes_value_4(b);
    lemma_bytes_value_4(c);
    let x = b[3];
    assert(x & 0x3f == x % 64) by (bit_vector);
    let low: int = b[0] + b[1] * 0x100 + b[2] * 0x10000;
    assert(0 <= low < 0x1000000);
    let q = x / 64;
    let r = x % 64;
    assert(x == 64 * q + r);
    assert(bytes_value(b) == (low + 0x1000000 * r) + 0x4000_0000 * q);
    assert(low + 0x1000000 * r < 0x4000_0000);
    lemma_mod_multiples_vanish(q as int, low + 0x1000000 * r, 0x4000_0000);
    lemma_small_mod((low + 0x1000000 * r) as nat, 0x4000_0000);
}

/// The 32 bits of a `u32` satisfy the 32-bit packing gate: `Σ bit_k · 2^k` is the value.
pub proof fn lemma_u32_bits_gate(value: u32)
    ensures
        bits_value(nat_bits(value as nat, 32)) == value,
{
    lemma_value_of_nat_bits(value as nat, 32);
    lemma2_to64();
    lemma_small_mod(value as nat, pow2(32));
}

/// The bits of a `u32` satisfy both packings of the strip gate: all 32 bits pack to the
/// value and the low 30 bits pack to the stripped value.
pub proof fn lemma_strip_bits_gate(value: u32)
    ensures
        bits_value(nat_bits(value as nat, 32)) == value,
        bits_value(nat_bits(value as nat, 32).take(30)) == value % 0x4000_0000,
        nat_bits(value as nat, 32).take(30) == nat_bits(value as nat, 30),
{
    let u = nat_bits(value as nat, 32);
    lemma_u32_bits_gate(value);
    lemma2_to64();
    lemma_bits_value_concat(u.take(30), u.skip(30));
    assert(u =~= u.take(30) + u.skip(30));
    lemma_bits_value_bound(u.take(30));
    lemma_strip_value(value, u);
}

proof fn lemma_strip_value(value: u32, u: Seq<bool>)
    requires
        u == nat_bits(value as nat, 32),
        bits_value(u) == bits_value(u.take(30)) + pow2(30) * bits_value(u.skip(30)),
        bits_value(u) == value,
        bits_value(u.take(30)) < pow2(30),
        pow2(30) == 0x4000_0000,
    ensures
        bits_value(u.take(30)) == value % 0x4000_0000,
        u.take(30) == nat_bits(value as nat, 30),
{
    lemma_fundamental_div_mod(value as int, 0x4000_0000);
    lemma_mul_is_commutative(pow2(30) as int, bits_value(u.skip(30)) as int);
    lemma_div_multiples_vanish_fancy(
        bits_value(u.skip(30)) as int,
        bits_value(u.take(30)) as int,
        0x4000_0000,
    );
    assert(u.take(30) =~= nat_bits(value as nat, 30));
}

} // verus!
